//! Reading a metainfo out of the bytes of a `.torrent` file.

use crate::base64_text::{base64_decode, base64_decoded};
use crate::bedecode::decode;
use crate::bencode_encode::{encode, encoding};
use crate::bencode_item::{entry_views, find_entry, item_views, Entry, Field, Item};
use crate::bencode_laws::lemma_parse_item_sound;
use crate::bencode_spec::{
    bytes_token, dict_get, natural_of, parse_item, wire, wire_entries, DecodingErrorKind, Value,
};
use crate::decimal::{dec_text, decimal_text};
use crate::geometry::covers;
use crate::hashes::{concat_hashes, split_hashes, Hashes};
use crate::sha1::{hash, sha1_digest};
use crate::text::string_from_utf8;
use crate::torrent::{
    file_views, files_total, keys_total, lemma_files_total_grows, lemma_lengths_total, path_view,
    File, FileView, Info, InfoView, Keys, KeysView, Torrent, TorrentView,
};
use vstd::prelude::*;
use vstd::slice::slice_to_vec;
use vstd::utf8::{decode_utf8, encode_utf8, valid_utf8};

verus! {

/// Why bytes are not a metainfo.
#[derive(Debug, Clone, Copy, PartialEq, Eq)]
pub enum MetainfoError {
    /// The bytes are not bencode.
    Bencode(DecodingErrorKind),
    /// An entry that a metainfo must have is not there.
    MissingField,
    /// An entry does not hold what a metainfo holds under its key.
    BadType,
    /// The piece hashes are not 20 bytes each.
    PiecesLengthNotMultiple20,
    /// The pieces do not cover the payload, or cover more than it.
    InconsistentLength,
    /// The text is not base64.
    Base64,
}

/// The key `announce`.
pub open spec fn key_announce() -> Seq<u8> {
    seq![97u8, 110, 110, 111, 117, 110, 99, 101]
}

/// The key `info`.
pub open spec fn key_info() -> Seq<u8> {
    seq![105u8, 110, 102, 111]
}

/// The key `name`.
pub open spec fn key_name() -> Seq<u8> {
    seq![110u8, 97, 109, 101]
}

/// The key `piece length`.
pub open spec fn key_piece_length() -> Seq<u8> {
    seq![112u8, 105, 101, 99, 101, 32, 108, 101, 110, 103, 116, 104]
}

/// The key `pieces`.
pub open spec fn key_pieces() -> Seq<u8> {
    seq![112u8, 105, 101, 99, 101, 115]
}

/// The key `length`.
pub open spec fn key_length() -> Seq<u8> {
    seq![108u8, 101, 110, 103, 116, 104]
}

/// The key `files`.
pub open spec fn key_files() -> Seq<u8> {
    seq![102u8, 105, 108, 101, 115]
}

/// The key `path`.
pub open spec fn key_path() -> Seq<u8> {
    seq![112u8, 97, 116, 104]
}

/// The text of a byte string that is UTF-8.
pub open spec fn text_of(v: Value) -> Option<Seq<char>> {
    match v {
        Value::Bytes(bytes) => if valid_utf8(bytes) {
            Some(decode_utf8(bytes))
        } else {
            None
        },
        _ => None,
    }
}

/// The length that an integer spells, where an address can tell it.
pub open spec fn length_of(v: Value) -> Option<usize> {
    match natural_of(v) {
        Some(n) => if n <= usize::MAX {
            Some(n as usize)
        } else {
            None
        },
        None => None,
    }
}

/// The segments of a path, if each is text.
pub open spec fn path_of(items: Seq<Value>) -> Option<Seq<Seq<char>>>
    decreases items.len(),
{
    if items.len() == 0 {
        Some(seq![])
    } else {
        match (path_of(items.drop_last()), text_of(items.last())) {
            (Some(front), Some(segment)) => Some(front.push(segment)),
            _ => None,
        }
    }
}

/// The file that a dictionary with a length and a path spells.
pub open spec fn file_of(v: Value) -> Option<FileView> {
    match v {
        Value::Dict(entries) => match (
            dict_get(entries, key_length()),
            dict_get(entries, key_path()),
        ) {
            (Some(length), Some(Value::List(segments))) => match (
                length_of(length),
                path_of(segments),
            ) {
                (Some(length), Some(path)) => Some(FileView { length, path }),
                _ => None,
            },
            _ => None,
        },
        _ => None,
    }
}

/// The files that the elements of a list spell, if each spells one.
pub open spec fn files_of(items: Seq<Value>) -> Option<Seq<FileView>>
    decreases items.len(),
{
    if items.len() == 0 {
        Some(seq![])
    } else {
        match (files_of(items.drop_last()), file_of(items.last())) {
            (Some(front), Some(file)) => Some(front.push(file)),
            _ => None,
        }
    }
}

/// The layout that an info dictionary tells: exactly one of a length and
/// a list of files.
pub open spec fn layout_of(entries: Seq<(Seq<u8>, Value)>) -> Result<KeysView, MetainfoError> {
    match (dict_get(entries, key_length()), dict_get(entries, key_files())) {
        (Some(length), None) => match length_of(length) {
            Some(length) => Ok(KeysView::SingleFile { length }),
            None => Err(MetainfoError::BadType),
        },
        (None, Some(Value::List(items))) => match files_of(items) {
            Some(files) => Ok(KeysView::MultiFile { files }),
            None => Err(MetainfoError::BadType),
        },
        (None, Some(_)) => Err(MetainfoError::BadType),
        (None, None) => Err(MetainfoError::MissingField),
        (Some(_), Some(_)) => Err(MetainfoError::BadType),
    }
}

/// The info dictionary that a value spells. It keeps the bytes of the
/// value as they stand.
pub open spec fn info_of(v: Value) -> Result<InfoView, MetainfoError> {
    match v {
        Value::Dict(entries) => match (
            dict_get(entries, key_name()),
            dict_get(entries, key_piece_length()),
            dict_get(entries, key_pieces()),
        ) {
            (Some(name), Some(piece_length), Some(pieces)) => match (
                text_of(name),
                natural_of(piece_length),
                pieces,
            ) {
                (Some(name), Some(n), Value::Bytes(hashes)) => if n == 0 || n > u32::MAX {
                    Err(MetainfoError::BadType)
                } else if hashes.len() % 20 != 0 {
                    Err(MetainfoError::PiecesLengthNotMultiple20)
                } else {
                    match layout_of(entries) {
                        Err(e) => Err(e),
                        Ok(keys) => if covers(n as int, hashes.len() as int / 20, keys_total(keys))
                            && keys_total(keys) <= usize::MAX {
                            Ok(
                                InfoView {
                                    name,
                                    piece_length: n as u32,
                                    pieces: split_hashes(hashes),
                                    keys,
                                    raw: Some(wire(v)),
                                },
                            )
                        } else {
                            Err(MetainfoError::InconsistentLength)
                        },
                    }
                },
                _ => Err(MetainfoError::BadType),
            },
            _ => Err(MetainfoError::MissingField),
        },
        _ => Err(MetainfoError::BadType),
    }
}

/// The metainfo that a value spells.
pub open spec fn metainfo_of(v: Value) -> Result<TorrentView, MetainfoError> {
    match v {
        Value::Dict(entries) => match (
            dict_get(entries, key_announce()),
            dict_get(entries, key_info()),
        ) {
            (Some(announce), Some(info)) => match text_of(announce) {
                Some(announce) => match info_of(info) {
                    Ok(info) => Ok(TorrentView { announce, info }),
                    Err(e) => Err(e),
                },
                None => Err(MetainfoError::BadType),
            },
            _ => Err(MetainfoError::MissingField),
        },
        _ => Err(MetainfoError::BadType),
    }
}

/// The metainfo that bytes spell: the value at their start, read as
/// `metainfo_of` says.
pub open spec fn parse_metainfo(bytes: Seq<u8>) -> Result<TorrentView, MetainfoError> {
    match parse_item(bytes) {
        Ok((v, _)) => metainfo_of(v),
        Err(e) => Err(MetainfoError::Bencode(e)),
    }
}

/// The info dictionary that the bytes of a whole info dictionary spell.
pub open spec fn parse_info(bytes: Seq<u8>) -> Result<InfoView, MetainfoError> {
    match parse_item(bytes) {
        Ok((v, n)) => if n == bytes.len() {
            info_of(v)
        } else {
            Err(MetainfoError::BadType)
        },
        Err(e) => Err(MetainfoError::Bencode(e)),
    }
}

/// Reads the text of a byte string.
fn text_from(item: &Item) -> (out: Option<String>)
    ensures
        match out {
            Some(text) => text_of(item@) == Some(text@),
            None => text_of(item@) is None,
        },
{
    match item.as_bytes() {
        Some(bytes) => string_from_utf8(slice_to_vec(bytes)),
        None => None,
    }
}

/// Reads a length.
fn length_from(item: &Item) -> (out: Option<usize>)
    ensures
        out == length_of(item@),
{
    match item.as_u64() {
        Some(n) => if n <= usize::MAX as u64 {
            Some(n as usize)
        } else {
            None
        },
        None => None,
    }
}

/// Where some of the segments are no text, the path is none.
proof fn lemma_path_of_fails(items: Seq<Value>, n: int)
    requires
        0 <= n <= items.len(),
        path_of(items.take(n)) is None,
    ensures
        path_of(items) is None,
    decreases items.len() - n,
{
    if n < items.len() {
        assert(items.take(n + 1).drop_last() =~= items.take(n));
        lemma_path_of_fails(items, n + 1);
    } else {
        assert(items.take(n) =~= items);
    }
}

/// Where some of the elements are no files, the files are none.
proof fn lemma_files_of_fails(items: Seq<Value>, n: int)
    requires
        0 <= n <= items.len(),
        files_of(items.take(n)) is None,
    ensures
        files_of(items) is None,
    decreases items.len() - n,
{
    if n < items.len() {
        assert(items.take(n + 1).drop_last() =~= items.take(n));
        lemma_files_of_fails(items, n + 1);
    } else {
        assert(items.take(n) =~= items);
    }
}

/// Reads the segments of a path.
fn path_from(items: &Vec<Item>) -> (out: Option<Vec<String>>)
    ensures
        match out {
            Some(path) => path_of(item_views(items@)) == Some(path_view(path@)),
            None => path_of(item_views(items@)) is None,
        },
{
    let ghost views = item_views(items@);
    let mut path: Vec<String> = Vec::new();
    let mut i: usize = 0;
    assert(views.take(0) =~= Seq::<Value>::empty());
    assert(path_view(path@) =~= Seq::<Seq<char>>::empty());
    while i < items.len()
        invariant
            i <= items@.len(),
            views == item_views(items@),
            path_of(views.take(i as int)) == Some(path_view(path@)),
        decreases items@.len() - i,
    {
        proof {
            let next = views.take(i + 1);
            assert(next.drop_last() =~= views.take(i as int));
            assert(next.last() == items@[i as int]@);
        }
        match text_from(&items[i]) {
            Some(segment) => {
                assert(path_view(path@).push(segment@) =~= path_view(path@.push(segment)));
                path.push(segment);
            },
            None => {
                proof {
                    lemma_path_of_fails(views, i + 1);
                }
                return None;
            },
        }
        i += 1;
    }
    assert(views.take(i as int) =~= views);
    Some(path)
}

/// Reads a file.
fn file_from(item: &Item) -> (out: Option<File>)
    ensures
        match out {
            Some(file) => file_of(item@) == Some(file@),
            None => file_of(item@) is None,
        },
{
    let length_key: [u8; 6] = [108u8, 101, 110, 103, 116, 104];
    let path_key: [u8; 4] = [112u8, 97, 116, 104];
    assert(length_key@ =~= key_length());
    assert(path_key@ =~= key_path());
    let entries = match item.as_dict() {
        Some(entries) => entries,
        None => {
            return None;
        },
    };
    let length = match find_entry(entries, length_key.as_slice()) {
        Some(length) => length,
        None => {
            return None;
        },
    };
    let segments = match find_entry(entries, path_key.as_slice()) {
        Some(segments) => match segments.as_list() {
            Some(segments) => segments,
            None => {
                return None;
            },
        },
        None => {
            return None;
        },
    };
    let length = match length_from(length) {
        Some(length) => length,
        None => {
            return None;
        },
    };
    match path_from(segments) {
        Some(path) => Some(File { length, path }),
        None => None,
    }
}

/// Reads the files of a list.
fn files_from(items: &Vec<Item>) -> (out: Option<Vec<File>>)
    ensures
        match out {
            Some(files) => files_of(item_views(items@)) == Some(file_views(files@)),
            None => files_of(item_views(items@)) is None,
        },
{
    let ghost views = item_views(items@);
    let mut files: Vec<File> = Vec::new();
    let mut i: usize = 0;
    assert(views.take(0) =~= Seq::<Value>::empty());
    assert(file_views(files@) =~= Seq::<FileView>::empty());
    while i < items.len()
        invariant
            i <= items@.len(),
            views == item_views(items@),
            files_of(views.take(i as int)) == Some(file_views(files@)),
        decreases items@.len() - i,
    {
        proof {
            let next = views.take(i + 1);
            assert(next.drop_last() =~= views.take(i as int));
            assert(next.last() == items@[i as int]@);
        }
        match file_from(&items[i]) {
            Some(file) => {
                assert(file_views(files@).push(file@) =~= file_views(files@.push(file)));
                files.push(file);
            },
            None => {
                proof {
                    lemma_files_of_fails(views, i + 1);
                }
                return None;
            },
        }
        i += 1;
    }
    assert(views.take(i as int) =~= views);
    Some(files)
}

/// Reads the layout of an info dictionary.
fn layout_from(entries: &Vec<Entry>) -> (res: Result<Keys, MetainfoError>)
    ensures
        match res {
            Ok(keys) => layout_of(entry_views(entries@)) == Ok::<KeysView, MetainfoError>(keys@),
            Err(e) => layout_of(entry_views(entries@)) == Err::<KeysView, MetainfoError>(e),
        },
{
    let length_key: [u8; 6] = [108u8, 101, 110, 103, 116, 104];
    let files_key: [u8; 5] = [102u8, 105, 108, 101, 115];
    assert(length_key@ =~= key_length());
    assert(files_key@ =~= key_files());
    let length = find_entry(entries, length_key.as_slice());
    let files = find_entry(entries, files_key.as_slice());
    match (length, files) {
        (Some(length), None) => match length_from(length) {
            Some(length) => Ok(Keys::SingleFile { length }),
            None => Err(MetainfoError::BadType),
        },
        (None, Some(files)) => match files.as_list() {
            Some(items) => match files_from(items) {
                Some(files) => Ok(Keys::MultiFile { files }),
                None => Err(MetainfoError::BadType),
            },
            None => Err(MetainfoError::BadType),
        },
        (None, None) => Err(MetainfoError::MissingField),
        (Some(_), Some(_)) => Err(MetainfoError::BadType),
    }
}

/// The lengths of the files added up, where an address can tell the sum.
fn files_sum(files: &Vec<File>) -> (out: Option<usize>)
    ensures
        match out {
            Some(n) => n == files_total(files@),
            None => files_total(files@) > usize::MAX,
        },
{
    let mut sum: usize = 0;
    let mut i: usize = 0;
    assert(files@.take(0) =~= Seq::<File>::empty());
    while i < files.len()
        invariant
            i <= files@.len(),
            sum == files_total(files@.take(i as int)),
        decreases files@.len() - i,
    {
        proof {
            lemma_files_total_grows(files@, i + 1, files@.len() as int);
            assert(files@.take(files@.len() as int) =~= files@);
            assert(files@.take(i + 1).drop_last() =~= files@.take(i as int));
        }
        let length: usize = files[i].length;
        if length > usize::MAX - sum {
            return None;
        }
        sum = sum + length;
        i += 1;
    }
    assert(files@.take(i as int) =~= files@);
    Some(sum)
}

/// Whether `count` pieces of `piece_length` bytes cover `total` bytes.
fn covers_check(piece_length: u32, count: usize, total: usize) -> (r: bool)
    requires
        piece_length > 0,
    ensures
        r == covers(piece_length as int, count as int, total as int),
{
    let product: u128 = {
        assert(count * piece_length <= 0xffff_ffff_ffff_ffff * 0xffff_ffff) by (nonlinear_arith)
            requires
                count <= 0xffff_ffff_ffff_ffff,
                piece_length <= 0xffff_ffff,
        ;
        (count as u128) * (piece_length as u128)
    };
    (total as u128) <= product && product < (total as u128) + (piece_length as u128)
}

impl Info {
    /// Whether the pieces cover the payload: what every info dictionary
    /// that was read holds, and what one that was put together by hand
    /// must hold before its geometry is asked for.
    pub fn is_consistent(&self) -> (out: bool)
        ensures
            out == self.wf(),
    {
        if self.piece_length == 0 {
            return false;
        }
        let total = match &self.keys {
            Keys::SingleFile { length } => Some(*length),
            Keys::MultiFile { files } => files_sum(files),
        };
        match total {
            Some(total) => covers_check(self.piece_length, self.pieces.len(), total),
            None => false,
        }
    }

    /// Reads an info dictionary out of the item that holds it.
    pub fn from_item(item: &Item) -> (res: Result<Info, MetainfoError>)
        requires
            item.wf(),
        ensures
            match res {
                Ok(info) => info_of(item@) == Ok::<InfoView, MetainfoError>(info@) && info.wf(),
                Err(e) => info_of(item@) == Err::<InfoView, MetainfoError>(e),
            },
    {
        let name_key: [u8; 4] = [110u8, 97, 109, 101];
        let piece_length_key: [u8; 12] = [112u8, 105, 101, 99, 101, 32, 108, 101, 110, 103, 116, 104];
        let pieces_key: [u8; 6] = [112u8, 105, 101, 99, 101, 115];
        assert(name_key@ =~= key_name());
        assert(piece_length_key@ =~= key_piece_length());
        assert(pieces_key@ =~= key_pieces());
        let entries = match item.as_dict() {
            Some(entries) => entries,
            None => {
                return Err(MetainfoError::BadType);
            },
        };
        let name = find_entry(entries, name_key.as_slice());
        let piece_length = find_entry(entries, piece_length_key.as_slice());
        let pieces = find_entry(entries, pieces_key.as_slice());
        let (name, piece_length, pieces) = match (name, piece_length, pieces) {
            (Some(name), Some(piece_length), Some(pieces)) => (name, piece_length, pieces),
            _ => {
                return Err(MetainfoError::MissingField);
            },
        };
        let name = text_from(name);
        let piece_length = piece_length.as_u64();
        let hashes = pieces.as_bytes();
        let (name, piece_length, hashes) = match (name, piece_length, hashes) {
            (Some(name), Some(piece_length), Some(hashes)) => (name, piece_length, hashes),
            _ => {
                return Err(MetainfoError::BadType);
            },
        };
        if piece_length == 0 || piece_length > u32::MAX as u64 {
            return Err(MetainfoError::BadType);
        }
        let piece_length: u32 = piece_length as u32;
        let pieces = match Hashes::from_bytes(hashes) {
            Some(pieces) => pieces,
            None => {
                return Err(MetainfoError::PiecesLengthNotMultiple20);
            },
        };
        let keys = layout_from(entries)?;
        let total = match &keys {
            Keys::SingleFile { length } => Some(*length),
            Keys::MultiFile { files } => {
                proof {
                    lemma_lengths_total(files@);
                }
                files_sum(files)
            },
        };
        let count = pieces.len();
        let consistent = match total {
            Some(total) => covers_check(piece_length, count, total),
            None => false,
        };
        if !consistent {
            return Err(MetainfoError::InconsistentLength);
        }
        let raw = slice_to_vec(item.raw_bytes());
        Ok(Info { name, piece_length, pieces, keys, raw: Some(raw) })
    }
}

impl Torrent {
    /// Reads a metainfo out of the bytes of a `.torrent` file.
    pub fn from_bytes(content: &[u8]) -> (res: Result<Torrent, MetainfoError>)
        ensures
            match res {
                Ok(torrent) => parse_metainfo(content@) == Ok::<TorrentView, MetainfoError>(
                    torrent@,
                ) && torrent.info.wf(),
                Err(e) => parse_metainfo(content@) == Err::<TorrentView, MetainfoError>(e),
            },
    {
        let announce_key: [u8; 8] = [97u8, 110, 110, 111, 117, 110, 99, 101];
        let info_key: [u8; 4] = [105u8, 110, 102, 111];
        assert(announce_key@ =~= key_announce());
        assert(info_key@ =~= key_info());
        assert(content@.skip(0) =~= content@);
        let item = match decode(content, 0) {
            Ok(item) => item,
            Err(e) => {
                return Err(MetainfoError::Bencode(e.kind));
            },
        };
        let entries = match item.as_dict() {
            Some(entries) => entries,
            None => {
                return Err(MetainfoError::BadType);
            },
        };
        let announce = find_entry(entries, announce_key.as_slice());
        let info = find_entry(entries, info_key.as_slice());
        let (announce, info) = match (announce, info) {
            (Some(announce), Some(info)) => (announce, info),
            _ => {
                return Err(MetainfoError::MissingField);
            },
        };
        let announce = match text_from(announce) {
            Some(announce) => announce,
            None => {
                return Err(MetainfoError::BadType);
            },
        };
        let info = Info::from_item(info)?;
        Ok(Torrent { announce, info })
    }
}

/// The metainfo that base64 text spells.
pub open spec fn parse_base64_metainfo(text: Seq<char>) -> Result<TorrentView, MetainfoError> {
    match base64_decoded(text) {
        Some(bytes) => parse_metainfo(bytes),
        None => Err(MetainfoError::Base64),
    }
}

/// The segments of a path as byte strings.
pub open spec fn path_value(path: Seq<Seq<char>>) -> Seq<Value> {
    Seq::new(path.len(), |i: int| Value::Bytes(encode_utf8(path[i])))
}

/// The dictionary that a file is written as.
pub open spec fn file_value(file: FileView) -> Value {
    Value::Dict(
        seq![
            (key_length(), Value::Number(dec_text(file.length as nat))),
            (key_path(), Value::List(path_value(file.path))),
        ],
    )
}

/// The dictionaries that files are written as.
pub open spec fn files_value(files: Seq<FileView>) -> Seq<Value> {
    Seq::new(files.len(), |i: int| file_value(files[i]))
}

/// The entry that a layout is written as.
pub open spec fn layout_entry(keys: KeysView) -> (Seq<u8>, Value) {
    match keys {
        KeysView::SingleFile { length } => (key_length(), Value::Number(dec_text(length as nat))),
        KeysView::MultiFile { files } => (key_files(), Value::List(files_value(files))),
    }
}

/// The dictionary that an info dictionary is written as.
pub open spec fn info_value(info: InfoView) -> Value {
    Value::Dict(
        seq![
            layout_entry(info.keys),
            (key_name(), Value::Bytes(encode_utf8(info.name))),
            (key_piece_length(), Value::Number(dec_text(info.piece_length as nat))),
            (key_pieces(), Value::Bytes(concat_hashes(info.pieces))),
        ],
    )
}

/// The bytes that identify an info dictionary: those it was read from, or
/// for one that was put together by hand its canonical encoding.
pub open spec fn identity_bytes(info: InfoView) -> Seq<u8> {
    match info.raw {
        Some(raw) => raw,
        None => encoding(info_value(info)),
    }
}

/// The item that a file is written as.
fn file_item<'a>(file: &'a File, length_text: &'a [u8], length_key: &'a [u8], path_key: &'a [u8])
    -> (out: Item<'a>)
    requires
        length_text@ == dec_text(file.length as nat),
        length_key@ == key_length(),
        path_key@ == key_path(),
    ensures
        out@ == file_value(file@),
{
    let none: &'a [u8] = vstd::slice::slice_subrange(length_key, 0, 0);
    let mut segments: Vec<Item<'a>> = Vec::new();
    let mut j: usize = 0;
    while j < file.path.len()
        invariant
            j <= file.path@.len(),
            segments@.len() == j,
            forall|k: int|
                0 <= k < j ==> (#[trigger] segments@[k])@ == Value::Bytes(encode_utf8(file.path@[k]@)),
        decreases file.path@.len() - j,
    {
        let bytes: &'a [u8] = file.path[j].as_str().as_bytes();
        segments.push(Item::Bytes(Field::new(none, bytes)));
        j += 1;
    }
    assert(item_views(segments@) =~= path_value(file@.path));
    let path = Item::List(Field::new(none, segments));
    assert(path@ == Value::List(path_value(file@.path))) by {
        assert(path@->List_0 =~= item_views(segments@));
    }
    let mut entries: Vec<Entry<'a>> = Vec::new();
    entries.push(
        Entry {
            key: Field::new(none, length_key),
            value: Item::Number(Field::new(none, length_text)),
        },
    );
    entries.push(Entry { key: Field::new(none, path_key), value: path });
    let ghost views = entry_views(entries@);
    let out = Item::Dict(Field::new(none, entries));
    proof {
        assert(out@->Dict_0 =~= views);
        assert(views =~= file_value(file@)->Dict_0);
    }
    out
}

impl Info {
    /// The canonical encoding of this info dictionary, written from its
    /// fields.
    pub fn to_bencode(&self) -> (out: Vec<u8>)
        ensures
            out@ == encoding(info_value(self@)),
    {
        let length_key: [u8; 6] = [108u8, 101, 110, 103, 116, 104];
        let files_key: [u8; 5] = [102u8, 105, 108, 101, 115];
        let path_key: [u8; 4] = [112u8, 97, 116, 104];
        let name_key: [u8; 4] = [110u8, 97, 109, 101];
        let piece_length_key: [u8; 12] = [112u8, 105, 101, 99, 101, 32, 108, 101, 110, 103, 116, 104];
        let pieces_key: [u8; 6] = [112u8, 105, 101, 99, 101, 115];
        assert(length_key@ =~= key_length());
        assert(files_key@ =~= key_files());
        assert(path_key@ =~= key_path());
        assert(name_key@ =~= key_name());
        assert(piece_length_key@ =~= key_piece_length());
        assert(pieces_key@ =~= key_pieces());
        let none = vstd::slice::slice_subrange(length_key.as_slice(), 0, 0);
        let piece_length_text = decimal_text(self.piece_length as u64);
        let pieces_bytes = self.pieces.to_bytes();
        let mut texts: Vec<Vec<u8>> = Vec::new();
        let single_text = match &self.keys {
            Keys::SingleFile { length } => decimal_text(*length as u64),
            Keys::MultiFile { files } => {
                let mut i: usize = 0;
                while i < files.len()
                    invariant
                        i <= files@.len(),
                        texts@.len() == i,
                        forall|k: int|
                            0 <= k < i ==> (#[trigger] texts@[k])@ == dec_text(
                                files@[k].length as nat,
                            ),
                    decreases files@.len() - i,
                {
                    texts.push(decimal_text(files[i].length as u64));
                    i += 1;
                }
                Vec::new()
            },
        };
        let layout = match &self.keys {
            Keys::SingleFile { length } => Entry {
                key: Field::new(none, length_key.as_slice()),
                value: Item::Number(Field::new(none, single_text.as_slice())),
            },
            Keys::MultiFile { files } => {
                let mut items: Vec<Item> = Vec::new();
                let mut i: usize = 0;
                while i < files.len()
                    invariant
                        i <= files@.len(),
                        length_key@ == key_length(),
                        path_key@ == key_path(),
                        texts@.len() == files@.len(),
                        forall|k: int|
                            0 <= k < files@.len() ==> (#[trigger] texts@[k])@ == dec_text(
                                files@[k].length as nat,
                            ),
                        items@.len() == i,
                        forall|k: int|
                            0 <= k < i ==> (#[trigger] items@[k])@ == file_value(files@[k]@),
                    decreases files@.len() - i,
                {
                    items.push(
                        file_item(
                            &files[i],
                            texts[i].as_slice(),
                            length_key.as_slice(),
                            path_key.as_slice(),
                        ),
                    );
                    i += 1;
                }
                assert(item_views(items@) =~= files_value(file_views(files@)));
                let list = Item::List(Field::new(none, items));
                assert(list@ == Value::List(files_value(file_views(files@)))) by {
                    assert(list@->List_0 =~= item_views(items@));
                }
                Entry { key: Field::new(none, files_key.as_slice()), value: list }
            },
        };
        assert((layout.key.payload@, layout.value@) == layout_entry(self@.keys));
        let mut entries: Vec<Entry> = Vec::new();
        entries.push(layout);
        entries.push(
            Entry {
                key: Field::new(none, name_key.as_slice()),
                value: Item::Bytes(Field::new(none, self.name.as_str().as_bytes())),
            },
        );
        entries.push(
            Entry {
                key: Field::new(none, piece_length_key.as_slice()),
                value: Item::Number(Field::new(none, piece_length_text.as_slice())),
            },
        );
        entries.push(
            Entry {
                key: Field::new(none, pieces_key.as_slice()),
                value: Item::Bytes(Field::new(none, pieces_bytes.as_slice())),
            },
        );
        let ghost views = entry_views(entries@);
        let item = Item::Dict(Field::new(none, entries));
        proof {
            assert(item@->Dict_0 =~= views);
            assert(views =~= info_value(self@)->Dict_0);
        }
        encode(&item)
    }

    /// The SHA-1 digest of the bytes that identify this info dictionary:
    /// the bytes it was read from, or for one that was put together by hand
    /// its canonical encoding.
    pub fn info_hash(&self) -> (digest: [u8; 20])
        ensures
            digest@ == sha1_digest(identity_bytes(self@)),
    {
        match &self.raw {
            Some(raw) => hash(raw.as_slice()),
            None => {
                let bytes = self.to_bencode();
                hash(bytes.as_slice())
            },
        }
    }
}

impl Torrent {
    /// The info-hash of the torrent: the SHA-1 digest of the bytes of its
    /// info dictionary.
    pub fn info_hash(&self) -> (digest: [u8; 20])
        ensures
            digest@ == sha1_digest(identity_bytes(self.info@)),
    {
        self.info.info_hash()
    }

    /// Reads a metainfo out of the base64 text of a `.torrent` file.
    pub fn from_base64(content: &str) -> (res: Result<Torrent, MetainfoError>)
        ensures
            match res {
                Ok(torrent) => parse_base64_metainfo(content@) == Ok::<TorrentView, MetainfoError>(
                    torrent@,
                ) && torrent.info.wf(),
                Err(e) => parse_base64_metainfo(content@) == Err::<TorrentView, MetainfoError>(e),
            },
    {
        match base64_decode(content) {
            Some(bytes) => Torrent::from_bytes(bytes.as_slice()),
            None => Err(MetainfoError::Base64),
        }
    }
}

/// The entries of two sequences are written one after the other.
pub proof fn lemma_wire_entries_concat(a: Seq<(Seq<u8>, Value)>, b: Seq<(Seq<u8>, Value)>)
    ensures
        wire_entries(a + b) == wire_entries(a) + wire_entries(b),
    decreases b.len(),
{
    if b.len() == 0 {
        assert(a + b =~= a);
        assert(wire_entries(a + b) =~= wire_entries(a) + wire_entries(b));
    } else {
        lemma_wire_entries_concat(a, b.drop_last());
        assert((a + b).drop_last() =~= a + b.drop_last());
        assert((a + b).last() == b.last());
        assert(wire_entries(a + b) =~= wire_entries(a) + wire_entries(b));
    }
}

/// The bytes of the value under a key stand in the bytes of the entries.
pub proof fn lemma_entry_in_wire(entries: Seq<(Seq<u8>, Value)>, key: Seq<u8>) -> (at: int)
    requires
        dict_get(entries, key) is Some,
    ensures
        0 <= at,
        at + wire(dict_get(entries, key)->Some_0).len() <= wire_entries(entries).len(),
        wire_entries(entries).subrange(
            at,
            at + wire(dict_get(entries, key)->Some_0).len(),
        ) == wire(dict_get(entries, key)->Some_0),
    decreases entries.len(),
{
    let first = seq![entries[0]];
    let rest = entries.skip(1);
    assert(entries =~= first + rest);
    lemma_wire_entries_concat(first, rest);
    assert(first.drop_last() =~= Seq::<(Seq<u8>, Value)>::empty());
    assert(wire_entries(first.drop_last()) =~= Seq::<u8>::empty());
    assert(first.last() == entries[0]);
    let head = wire_entries(first);
    assert(head =~= bytes_token(entries[0].0) + wire(entries[0].1));
    if entries[0].0 == key {
        let at = bytes_token(key).len() as int;
        assert(wire_entries(entries).subrange(at, at + wire(entries[0].1).len()) =~= wire(
            entries[0].1,
        ));
        at
    } else {
        let inner = lemma_entry_in_wire(rest, key);
        let at = head.len() + inner;
        let found = wire(dict_get(entries, key)->Some_0);
        assert(wire_entries(entries).subrange(at, at + found.len()) =~= wire_entries(
            rest,
        ).subrange(inner, inner + found.len()));
        at
    }
}

/// The identity of a metainfo that was read is the bytes of its info
/// dictionary as they stand in the file, under the key `info`: whatever
/// surrounds them, in whatever order, those bytes alone make the info-hash.
pub proof fn lemma_info_hash_identity(content: Seq<u8>) -> (at: int)
    requires
        parse_metainfo(content) is Ok,
    ensures
        ({
            let top = parse_item(content)->Ok_0.0;
            let info = dict_get(top->Dict_0, key_info())->Some_0;
            let identity = identity_bytes(parse_metainfo(content)->Ok_0.info);
            &&& parse_item(content) is Ok
            &&& top is Dict
            &&& dict_get(top->Dict_0, key_info()) is Some
            &&& identity == wire(info)
            &&& 0 <= at
            &&& at + identity.len() <= content.len()
            &&& content.subrange(at, at + identity.len()) == identity
        }),
{
    let top = parse_item(content)->Ok_0.0;
    let n = parse_item(content)->Ok_0.1;
    let entries = top->Dict_0;
    let info = dict_get(entries, key_info())->Some_0;
    lemma_parse_item_sound(content);
    let inner = lemma_entry_in_wire(entries, key_info());
    let at = 1 + inner;
    assert(wire(top) =~= seq![100u8] + wire_entries(entries) + seq![101u8]);
    let found = wire(info);
    let whole = wire(top);
    assert(whole == content.take(n));
    assert(whole.len() == wire_entries(entries).len() + 2);
    assert(at + found.len() <= whole.len());
    assert(whole.len() == n);
    assert(whole.subrange(at, at + found.len()) =~= wire_entries(entries).subrange(
        inner,
        inner + found.len(),
    ));
    assert(content.subrange(at, at + found.len()) =~= whole.subrange(at, at + found.len()));
    at
}

} // verus!
