//! An info dictionary that is written and read again is the same info
//! dictionary, so that its identity does not depend on where it came from.

use crate::bencode_encode::{canonical, encoding, is_canonical, lemma_canonical_fixed};
use crate::bencode_laws::lemma_parse_wire;
use crate::bencode_order::{keys_ascending, keys_of};
use crate::bencode_spec::{dict_get, natural_of, parse_item, valid, wire, Value};
use crate::byte_order::{lemma_lex_less_transitive, lex_less};
use crate::decimal::{dec_text, lemma_dec_text};
use crate::geometry::covers;
use crate::hashes::{lemma_concat_hashes_len, lemma_split_concat};
use crate::metainfo::{
    file_of, file_value, files_of, files_value, identity_bytes, info_of, info_value, key_files,
    key_length, key_name, key_path, key_piece_length, key_pieces, layout_entry, layout_of,
    length_of, parse_info, path_of, path_value, text_of, MetainfoError,
};
use crate::torrent::{keys_total, lemma_lengths_total, FileView, Info, InfoView, Keys, KeysView};
use vstd::prelude::*;
use vstd::utf8::{encode_utf8, encode_utf8_decode_utf8, encode_utf8_valid_utf8};

verus! {

/// Whether an info dictionary as a value is one that a metainfo can hold:
/// its digests are 20 bytes each, and its pieces cover its payload.
pub open spec fn info_view_wf(info: InfoView) -> bool {
    &&& forall|i: int| 0 <= i < info.pieces.len() ==> (#[trigger] info.pieces[i]).len() == 20
    &&& covers(info.piece_length as int, info.pieces.len() as int, keys_total(info.keys))
    &&& keys_total(info.keys) <= usize::MAX
}

/// A byte string that agrees with another up to a place where its byte is
/// the smaller one comes before the other.
pub proof fn lemma_lex_less_at(a: Seq<u8>, b: Seq<u8>, k: int)
    requires
        0 <= k < a.len(),
        k < b.len(),
        forall|i: int| 0 <= i < k ==> a[i] == b[i],
        a[k] < b[k],
    ensures
        lex_less(a, b),
    decreases k,
{
    if k > 0 {
        let x = a.skip(1);
        let y = b.skip(1);
        assert forall|i: int| 0 <= i < k - 1 implies x[i] == y[i] by {
            assert(x[i] == a[i + 1]);
            assert(y[i] == b[i + 1]);
        }
        assert(x[k - 1] == a[k]);
        assert(y[k - 1] == b[k]);
        lemma_lex_less_at(x, y, k - 1);
        assert(a[0] == b[0]);
    }
}

/// The keys of an info dictionary and of a file, in ascending order.
proof fn lemma_keys_in_order()
    ensures
        lex_less(key_files(), key_name()),
        lex_less(key_length(), key_name()),
        lex_less(key_name(), key_piece_length()),
        lex_less(key_piece_length(), key_pieces()),
        lex_less(key_length(), key_path()),
        lex_less(key_name(), key_pieces()),
        lex_less(key_files(), key_piece_length()),
        lex_less(key_files(), key_pieces()),
        lex_less(key_length(), key_piece_length()),
        lex_less(key_length(), key_pieces()),
{
    lemma_lex_less_at(key_files(), key_name(), 0);
    lemma_lex_less_at(key_length(), key_name(), 0);
    lemma_lex_less_at(key_name(), key_piece_length(), 0);
    lemma_lex_less_at(key_piece_length(), key_pieces(), 5);
    lemma_lex_less_at(key_length(), key_path(), 0);
    lemma_lex_less_transitive(key_name(), key_piece_length(), key_pieces());
    lemma_lex_less_transitive(key_files(), key_name(), key_piece_length());
    lemma_lex_less_transitive(key_files(), key_name(), key_pieces());
    lemma_lex_less_transitive(key_length(), key_name(), key_piece_length());
    lemma_lex_less_transitive(key_length(), key_name(), key_pieces());
}

/// The segments of a path are read back from what they are written as.
proof fn lemma_path_round_trip(path: Seq<Seq<char>>)
    ensures
        path_of(path_value(path)) == Some(path),
        forall|i: int| 0 <= i < path.len() ==> is_canonical(#[trigger] path_value(path)[i]),
        forall|i: int| 0 <= i < path.len() ==> valid(#[trigger] path_value(path)[i]),
    decreases path.len(),
{
    if path.len() > 0 {
        let front = path.drop_last();
        lemma_path_round_trip(front);
        assert(path_value(path).drop_last() =~= path_value(front));
        encode_utf8_valid_utf8(path.last());
        encode_utf8_decode_utf8(path.last());
        assert(front.push(path.last()) =~= path);
    } else {
        assert(path =~= Seq::<Seq<char>>::empty());
    }
}

/// A file is read back from what it is written as, which is canonical.
proof fn lemma_file_round_trip(file: FileView)
    ensures
        file_of(file_value(file)) == Some(file),
        is_canonical(file_value(file)),
        valid(file_value(file)),
{
    let entries = file_value(file)->Dict_0;
    lemma_keys_in_order();
    lemma_path_round_trip(file.path);
    lemma_dec_text(file.length as nat);
    reveal_with_fuel(dict_get, 3);
    assert(key_length() != key_path()) by {
        assert(key_length().len() != key_path().len());
    }
    assert(entries[0].0 == key_length());
    assert(entries.skip(1)[0] == entries[1]);
    let keys = keys_of(entries);
    assert forall|a: int, b: int| 0 <= a < b < keys.len() implies lex_less(
        #[trigger] keys[a],
        #[trigger] keys[b],
    ) by {}
    assert forall|i: int| 0 <= i < entries.len() implies is_canonical((#[trigger] entries[i]).1)
        && valid(entries[i].1) by {}
}

/// Files are read back from what they are written as.
proof fn lemma_files_round_trip(files: Seq<FileView>)
    ensures
        files_of(files_value(files)) == Some(files),
        forall|i: int| 0 <= i < files.len() ==> is_canonical(#[trigger] files_value(files)[i]),
        forall|i: int| 0 <= i < files.len() ==> valid(#[trigger] files_value(files)[i]),
    decreases files.len(),
{
    if files.len() > 0 {
        let front = files.drop_last();
        lemma_files_round_trip(front);
        lemma_file_round_trip(files.last());
        assert(files_value(files).drop_last() =~= files_value(front));
        assert(front.push(files.last()) =~= files);
        assert forall|i: int| 0 <= i < files.len() implies is_canonical(
            #[trigger] files_value(files)[i],
        ) && valid(files_value(files)[i]) by {
            if i < front.len() {
                assert(files_value(files)[i] == files_value(front)[i]);
            }
        }
    } else {
        assert(files =~= Seq::<FileView>::empty());
    }
}

/// An info dictionary is written with its keys in ascending order, and
/// read back from what it is written as: the same fields, and as the
/// bytes it was read from the bytes that were written. So an info
/// dictionary that was put together by hand and one that was read from
/// its encoding have the same identity, and the same info-hash.
pub proof fn lemma_info_round_trip(info: InfoView)
    requires
        info_view_wf(info),
    ensures
        is_canonical(info_value(info)),
        encoding(info_value(info)) == wire(info_value(info)),
        parse_info(encoding(info_value(info))) == Ok::<InfoView, MetainfoError>(
            InfoView { raw: Some(encoding(info_value(info))), ..info },
        ),
        identity_bytes(InfoView { raw: Some(encoding(info_value(info))), ..info })
            == identity_bytes(InfoView { raw: None, ..info }),
{
    let v = info_value(info);
    let entries = v->Dict_0;
    let keys = keys_of(entries);
    lemma_keys_in_order();
    lemma_dec_text(info.piece_length as nat);
    encode_utf8_valid_utf8(info.name);
    encode_utf8_decode_utf8(info.name);
    lemma_split_concat(info.pieces);
    match info.keys {
        KeysView::SingleFile { length } => {
            lemma_dec_text(length as nat);
        },
        KeysView::MultiFile { files } => {
            lemma_files_round_trip(files);
        },
    }
    assert(entries[0] == layout_entry(info.keys));
    assert(entries[1].0 == key_name());
    assert(entries[2].0 == key_piece_length());
    assert(entries[3].0 == key_pieces());
    assert forall|a: int, b: int| 0 <= a < b < keys.len() implies lex_less(
        #[trigger] keys[a],
        #[trigger] keys[b],
    ) by {}
    assert forall|i: int| 0 <= i < entries.len() implies is_canonical((#[trigger] entries[i]).1)
        && valid(entries[i].1) by {}
    assert(is_canonical(v));
    assert(valid(v));
    lemma_canonical_fixed(v);
    lemma_parse_wire(v, Seq::<u8>::empty());
    assert(wire(v) + Seq::<u8>::empty() =~= wire(v));
    // the keys differ from each other
    assert(key_name().len() == 4 && key_piece_length().len() == 12 && key_pieces().len() == 6
        && key_length().len() == 6 && key_files().len() == 5);
    assert(key_length() != key_pieces()) by {
        assert(key_length()[0] != key_pieces()[0]);
    }
    reveal_with_fuel(dict_get, 5);
    let one = entries.skip(1);
    let two = one.skip(1);
    let three = two.skip(1);
    assert(one[0] == entries[1]);
    assert(two[0] == entries[2]);
    assert(three[0] == entries[3]);
    assert(three.skip(1).len() == 0);
    assert(dict_get(entries, key_name()) == Some(entries[1].1));
    assert(dict_get(entries, key_piece_length()) == Some(entries[2].1));
    assert(dict_get(entries, key_pieces()) == Some(entries[3].1));
    match info.keys {
        KeysView::SingleFile { length } => {
            assert(dict_get(entries, key_length()) == Some(entries[0].1));
            assert(dict_get(entries, key_files()) is None);
        },
        KeysView::MultiFile { files } => {
            assert(dict_get(entries, key_files()) == Some(entries[0].1));
            assert(dict_get(entries, key_length()) is None);
        },
    }
    assert(layout_of(entries) == Ok::<KeysView, MetainfoError>(info.keys));
    lemma_concat_hashes_len(info.pieces);
}

/// A well-formed info dictionary is one as a value too, so that what
/// holds of such values holds of what the library builds and reads.
pub proof fn lemma_info_wf_view(info: Info)
    requires
        info.wf(),
    ensures
        info_view_wf(info@),
{
    match info.keys {
        Keys::SingleFile { .. } => {},
        Keys::MultiFile { files } => {
            lemma_lengths_total(files@);
        },
    }
}

} // verus!
