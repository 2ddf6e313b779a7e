//! The payload of the extension handshake: a bencoded dictionary whose
//! entry `m` names the message id that the sender gave to each extension.

use crate::bedecode::decode;
use crate::bencode_item::{find_entry, Item};
use crate::bencode_laws::lemma_parse_wire;
use crate::bencode_spec::{
    bytes_token, dict_get, natural_of, number_token, parse_item, valid, wire, wire_entries, Value,
};
use crate::bencode_tokens::{push_bytes_token, push_number_token};
use crate::decimal::{dec_text, lemma_dec_text};
use vstd::prelude::*;
use vstd::slice::{slice_subrange, slice_to_vec};

verus! {

/// The ids that a peer gave to the extensions it supports.
#[derive(Debug, Clone, Copy, PartialEq, Eq)]
pub struct Metadata {
    pub ut_metadata: Option<u8>,
    pub ut_pex: Option<u8>,
}

/// The payload of the extension handshake.
#[derive(Debug, Clone, Copy, PartialEq, Eq)]
pub struct ExtensionsInfo {
    pub metdata: Metadata,
}

impl ExtensionsInfo {
    /// A handshake that offers the metadata exchange under the id `ut_metadata`.
    pub fn new(ut_metadata: u8) -> (out: ExtensionsInfo)
        ensures
            out.metdata.ut_metadata == Some(ut_metadata),
            out.metdata.ut_pex is None,
    {
        ExtensionsInfo { metdata: Metadata { ut_metadata: Some(ut_metadata), ut_pex: None } }
    }
}

/// The key `m`.
pub open spec fn key_m() -> Seq<u8> {
    seq![109u8]
}

/// The key `ut_metadata`.
pub open spec fn key_ut_metadata() -> Seq<u8> {
    seq![117u8, 116, 95, 109, 101, 116, 97, 100, 97, 116, 97]
}

/// The key `ut_pex`.
pub open spec fn key_ut_pex() -> Seq<u8> {
    seq![117u8, 116, 95, 112, 101, 120]
}

/// The entry of an extension that has the id `id`, or no entry.
pub open spec fn id_entry(key: Seq<u8>, id: Option<u8>) -> Seq<(Seq<u8>, Value)> {
    match id {
        Some(n) => seq![(key, Value::Number(dec_text(n as nat)))],
        None => seq![],
    }
}

/// The dictionary that an extension handshake is written as.
pub open spec fn extension_value(info: ExtensionsInfo) -> Value {
    Value::Dict(
        seq![
            (
                key_m(),
                Value::Dict(
                    id_entry(key_ut_metadata(), info.metdata.ut_metadata) + id_entry(
                        key_ut_pex(),
                        info.metdata.ut_pex,
                    ),
                ),
            ),
        ],
    )
}

/// The bytes that an extension handshake is written as.
pub open spec fn extension_payload(info: ExtensionsInfo) -> Seq<u8> {
    wire(extension_value(info))
}

/// The id under an optional entry: no entry is no id; an entry must be an
/// integer from 0 to 255.
pub open spec fn id_of(entry: Option<Value>) -> Option<Option<u8>> {
    match entry {
        None => Some(None),
        Some(v) => match natural_of(v) {
            Some(n) => if n <= 255 {
                Some(Some(n as u8))
            } else {
                None
            },
            None => None,
        },
    }
}

/// The extension handshake that a value spells: a dictionary whose entry
/// `m` is a dictionary; other entries are passed over.
pub open spec fn extension_of(v: Value) -> Option<ExtensionsInfo> {
    match v {
        Value::Dict(entries) => match dict_get(entries, key_m()) {
            Some(Value::Dict(ids)) => match (
                id_of(dict_get(ids, key_ut_metadata())),
                id_of(dict_get(ids, key_ut_pex())),
            ) {
                (Some(ut_metadata), Some(ut_pex)) => Some(
                    ExtensionsInfo { metdata: Metadata { ut_metadata, ut_pex } },
                ),
                _ => None,
            },
            _ => None,
        },
        _ => None,
    }
}

/// The extension handshake that bytes spell: the value at their start, read
/// as `extension_of` says. What follows that value is passed over.
pub open spec fn parse_extension(payload: Seq<u8>) -> Option<ExtensionsInfo> {
    match parse_item(payload) {
        Ok((v, _)) => extension_of(v),
        Err(_) => None,
    }
}

/// Appends the entry of an extension that has an id.
fn push_id_entry(out: &mut Vec<u8>, key: &[u8], id: Option<u8>)
    ensures
        final(out)@ == old(out)@ + wire_entries(id_entry(key@, id)),
{
    let ghost before = out@;
    match id {
        Some(n) => {
            push_bytes_token(out, key);
            push_number_token(out, n as u64);
            proof {
                let entries = id_entry(key@, id);
                assert(entries.drop_last() =~= Seq::<(Seq<u8>, Value)>::empty());
                assert(wire_entries(entries.drop_last()) =~= Seq::<u8>::empty());
                assert(entries.last() == (key@, Value::Number(dec_text(n as nat))));
                assert(wire(entries.last().1) == number_token(dec_text(n as nat)));
                assert(wire_entries(entries) =~= bytes_token(key@) + number_token(
                    dec_text(n as nat),
                ));
                assert(out@ =~= before + wire_entries(entries));
            }
        },
        None => {
            assert(out@ =~= before + wire_entries(id_entry(key@, id)));
        },
    }
}

/// The entries of two sequences of at most one entry each are written one
/// after the other.
proof fn lemma_wire_id_entries(a: Seq<(Seq<u8>, Value)>, b: Seq<(Seq<u8>, Value)>)
    requires
        b.len() <= 1,
    ensures
        wire_entries(a + b) == wire_entries(a) + wire_entries(b),
{
    if b.len() == 0 {
        assert(a + b =~= a);
        assert(wire_entries(a + b) =~= wire_entries(a) + wire_entries(b));
    } else {
        assert((a + b).drop_last() =~= a);
        assert(b.drop_last() =~= Seq::<(Seq<u8>, Value)>::empty());
        assert(wire_entries(b.drop_last()) =~= Seq::<u8>::empty());
        assert(wire_entries(a + b) =~= wire_entries(a) + wire_entries(b));
    }
}

/// Writes an extension handshake.
pub fn encode_extension(info: &ExtensionsInfo) -> (out: Vec<u8>)
    ensures
        out@ == extension_payload(*info),
{
    let m: [u8; 1] = [109u8];
    let ut_metadata: [u8; 11] = [117u8, 116, 95, 109, 101, 116, 97, 100, 97, 116, 97];
    let ut_pex: [u8; 6] = [117u8, 116, 95, 112, 101, 120];
    assert(m@ =~= key_m());
    assert(ut_metadata@ =~= key_ut_metadata());
    assert(ut_pex@ =~= key_ut_pex());
    let mut out: Vec<u8> = Vec::new();
    out.push(100u8);
    push_bytes_token(&mut out, m.as_slice());
    out.push(100u8);
    push_id_entry(&mut out, ut_metadata.as_slice(), info.metdata.ut_metadata);
    push_id_entry(&mut out, ut_pex.as_slice(), info.metdata.ut_pex);
    out.push(101u8);
    out.push(101u8);
    proof {
        let first = id_entry(key_ut_metadata(), info.metdata.ut_metadata);
        let second = id_entry(key_ut_pex(), info.metdata.ut_pex);
        lemma_wire_id_entries(first, second);
        let ids = Value::Dict(first + second);
        let outer = seq![(key_m(), ids)];
        assert(outer.drop_last() =~= Seq::<(Seq<u8>, Value)>::empty());
        assert(wire_entries(outer.drop_last()) =~= Seq::<u8>::empty());
        assert(wire_entries(outer) =~= bytes_token(key_m()) + wire(ids));
        assert(out@ =~= extension_payload(*info));
    }
    out
}

/// Reads the id under an optional entry.
fn read_id(entry: Option<&Item>) -> (out: Option<Option<u8>>)
    ensures
        out == id_of(
            match entry {
                Some(item) => Some(item@),
                None => None,
            },
        ),
{
    match entry {
        None => Some(None),
        Some(item) => match item.as_u64() {
            Some(n) => if n <= 255 {
                Some(Some(n as u8))
            } else {
                None
            },
            None => None,
        },
    }
}

/// Reads the extension handshake that starts at `pos`.
pub fn decode_extension(input: &[u8], pos: usize) -> (out: Option<ExtensionsInfo>)
    requires
        pos <= input@.len(),
    ensures
        out == parse_extension(input@.skip(pos as int)),
{
    let m: [u8; 1] = [109u8];
    let ut_metadata: [u8; 11] = [117u8, 116, 95, 109, 101, 116, 97, 100, 97, 116, 97];
    let ut_pex: [u8; 6] = [117u8, 116, 95, 112, 101, 120];
    assert(m@ =~= key_m());
    assert(ut_metadata@ =~= key_ut_metadata());
    assert(ut_pex@ =~= key_ut_pex());
    let item = match decode(input, pos) {
        Ok(item) => item,
        Err(_) => {
            return None;
        },
    };
    let entries = match item.as_dict() {
        Some(entries) => entries,
        None => {
            return None;
        },
    };
    let ids = match find_entry(entries, m.as_slice()) {
        Some(ids) => ids,
        None => {
            return None;
        },
    };
    let ids = match ids.as_dict() {
        Some(ids) => ids,
        None => {
            return None;
        },
    };
    let first = read_id(find_entry(ids, ut_metadata.as_slice()));
    let second = read_id(find_entry(ids, ut_pex.as_slice()));
    match (first, second) {
        (Some(ut_metadata), Some(ut_pex)) => Some(
            ExtensionsInfo { metdata: Metadata { ut_metadata, ut_pex } },
        ),
        _ => None,
    }
}

/// An extension handshake is read back from the bytes it was written to,
/// whatever follows them.
pub proof fn lemma_extension_round_trip(info: ExtensionsInfo, rest: Seq<u8>)
    ensures
        parse_extension(extension_payload(info) + rest) == Some(info),
{
    let first = id_entry(key_ut_metadata(), info.metdata.ut_metadata);
    let second = id_entry(key_ut_pex(), info.metdata.ut_pex);
    let ids = first + second;
    let outer = seq![(key_m(), Value::Dict(ids))];
    let v = extension_value(info);
    assert(v == Value::Dict(outer));
    assert forall|i: int| 0 <= i < ids.len() implies valid((#[trigger] ids[i]).1) by {
        match ids[i].1 {
            Value::Number(text) => {
                if info.metdata.ut_metadata is Some {
                    lemma_dec_text(info.metdata.ut_metadata->0 as nat);
                }
                if info.metdata.ut_pex is Some {
                    lemma_dec_text(info.metdata.ut_pex->0 as nat);
                }
            },
            _ => {},
        }
    }
    assert(valid(Value::Dict(ids)));
    assert forall|i: int| 0 <= i < outer.len() implies valid((#[trigger] outer[i]).1) by {}
    assert(valid(v));
    lemma_parse_wire(v, rest);
    assert(dict_get(outer, key_m()) == Some(Value::Dict(ids)));
    assert(key_ut_metadata() != key_ut_pex()) by {
        assert(key_ut_metadata().len() != key_ut_pex().len());
    }
    if info.metdata.ut_metadata is Some {
        lemma_dec_text(info.metdata.ut_metadata->0 as nat);
    }
    if info.metdata.ut_pex is Some {
        lemma_dec_text(info.metdata.ut_pex->0 as nat);
    }
    assert(id_of(dict_get(ids, key_ut_metadata())) == Some(info.metdata.ut_metadata)) by {
        reveal_with_fuel(dict_get, 3);
        if info.metdata.ut_metadata is Some {
            assert(ids[0] == first[0]);
        } else {
            assert(ids =~= second);
            if info.metdata.ut_pex is Some {
                assert(ids.skip(1) =~= Seq::<(Seq<u8>, Value)>::empty());
            }
        }
    }
    assert(id_of(dict_get(ids, key_ut_pex())) == Some(info.metdata.ut_pex)) by {
        reveal_with_fuel(dict_get, 3);
        if info.metdata.ut_metadata is Some {
            assert(ids[0] == first[0]);
            assert(ids.skip(1) =~= second);
            if info.metdata.ut_pex is Some {
            } else {
            }
        } else {
            assert(ids =~= second);
        }
    }
}

/// A message of the metadata exchange.
#[derive(Debug, Clone, PartialEq, Eq)]
pub enum MetadataMessage {
    /// Asks for a piece of the info dictionary.
    Request { piece: u32 },
    /// A piece of the info dictionary, of which there are `total_size` bytes.
    Data { piece: u32, total_size: u32, block: Vec<u8> },
    /// Refuses a piece.
    Reject { piece: u32 },
}

/// A message of the metadata exchange as a value.
pub enum MetadataView {
    Request { piece: u32 },
    Data { piece: u32, total_size: u32, block: Seq<u8> },
    Reject { piece: u32 },
}

impl View for MetadataMessage {
    type V = MetadataView;

    open spec fn view(&self) -> MetadataView {
        match self {
            MetadataMessage::Request { piece } => MetadataView::Request { piece: *piece },
            MetadataMessage::Data { piece, total_size, block } => MetadataView::Data {
                piece: *piece,
                total_size: *total_size,
                block: block@,
            },
            MetadataMessage::Reject { piece } => MetadataView::Reject { piece: *piece },
        }
    }
}

/// The key `msg_type`.
pub open spec fn key_msg_type() -> Seq<u8> {
    seq![109u8, 115, 103, 95, 116, 121, 112, 101]
}

/// The key `piece`.
pub open spec fn key_piece() -> Seq<u8> {
    seq![112u8, 105, 101, 99, 101]
}

/// The key `total_size`.
pub open spec fn key_total_size() -> Seq<u8> {
    seq![116u8, 111, 116, 97, 108, 95, 115, 105, 122, 101]
}

/// The number of an integer entry that fits in 32 bits.
pub open spec fn u32_of(entry: Option<Value>) -> Option<u32> {
    match entry {
        Some(v) => match natural_of(v) {
            Some(n) => if n <= u32::MAX {
                Some(n as u32)
            } else {
                None
            },
            None => None,
        },
        None => None,
    }
}

/// The dictionary that heads a message of the metadata exchange.
pub open spec fn metadata_header(m: MetadataView) -> Value {
    match m {
        MetadataView::Request { piece } => Value::Dict(
            seq![
                (key_msg_type(), Value::Number(dec_text(0))),
                (key_piece(), Value::Number(dec_text(piece as nat))),
            ],
        ),
        MetadataView::Data { piece, total_size, block } => Value::Dict(
            seq![
                (key_msg_type(), Value::Number(dec_text(1))),
                (key_piece(), Value::Number(dec_text(piece as nat))),
                (key_total_size(), Value::Number(dec_text(total_size as nat))),
            ],
        ),
        MetadataView::Reject { piece } => Value::Dict(
            seq![
                (key_msg_type(), Value::Number(dec_text(2))),
                (key_piece(), Value::Number(dec_text(piece as nat))),
            ],
        ),
    }
}

/// The bytes of a message of the metadata exchange: its header, and
/// behind the header of a piece the bytes of the piece.
pub open spec fn metadata_payload(m: MetadataView) -> Seq<u8> {
    match m {
        MetadataView::Data { block, .. } => wire(metadata_header(m)) + block,
        _ => wire(metadata_header(m)),
    }
}

/// The message that a header and the bytes behind it spell.
pub open spec fn metadata_of(v: Value, rest: Seq<u8>) -> Option<MetadataView> {
    match v {
        Value::Dict(entries) => match (
            u32_of(dict_get(entries, key_msg_type())),
            u32_of(dict_get(entries, key_piece())),
        ) {
            (Some(kind), Some(piece)) => if kind == 0 {
                Some(MetadataView::Request { piece })
            } else if kind == 1 {
                match u32_of(dict_get(entries, key_total_size())) {
                    Some(total_size) => Some(MetadataView::Data { piece, total_size, block: rest }),
                    None => None,
                }
            } else if kind == 2 {
                Some(MetadataView::Reject { piece })
            } else {
                None
            },
            _ => None,
        },
        _ => None,
    }
}

/// The message of the metadata exchange that bytes spell: the header at
/// their start, and what follows it.
pub open spec fn parse_metadata(payload: Seq<u8>) -> Option<MetadataView> {
    match parse_item(payload) {
        Ok((v, n)) => metadata_of(v, payload.skip(n)),
        Err(_) => None,
    }
}

/// Appends an entry whose value is a number.
fn push_number_entry(out: &mut Vec<u8>, key: &[u8], n: u32, Ghost(before): Ghost<
    Seq<(Seq<u8>, Value)>,
>, Ghost(start): Ghost<Seq<u8>>)
    requires
        old(out)@ == start + wire_entries(before),
    ensures
        final(out)@ == start + wire_entries(
            before.push((key@, Value::Number(dec_text(n as nat)))),
        ),
{
    push_bytes_token(out, key);
    push_number_token(out, n as u64);
    proof {
        let entries = before.push((key@, Value::Number(dec_text(n as nat))));
        assert(entries.drop_last() =~= before);
        assert(wire(entries.last().1) == number_token(dec_text(n as nat)));
        assert(out@ =~= start + wire_entries(entries));
    }
}

/// Writes a message of the metadata exchange.
pub fn encode_metadata(message: &MetadataMessage) -> (out: Vec<u8>)
    ensures
        out@ == metadata_payload(message@),
{
    let msg_type: [u8; 8] = [109u8, 115, 103, 95, 116, 121, 112, 101];
    let piece_key: [u8; 5] = [112u8, 105, 101, 99, 101];
    let total_size_key: [u8; 10] = [116u8, 111, 116, 97, 108, 95, 115, 105, 122, 101];
    assert(msg_type@ =~= key_msg_type());
    assert(piece_key@ =~= key_piece());
    assert(total_size_key@ =~= key_total_size());
    let mut out: Vec<u8> = Vec::new();
    out.push(100u8);
    let ghost start = out@;
    let ghost none = Seq::<(Seq<u8>, Value)>::empty();
    assert(out@ =~= start + wire_entries(none));
    match message {
        MetadataMessage::Request { piece } => {
            push_number_entry(&mut out, msg_type.as_slice(), 0, Ghost(none), Ghost(start));
            let ghost one = none.push((key_msg_type(), Value::Number(dec_text(0))));
            push_number_entry(&mut out, piece_key.as_slice(), *piece, Ghost(one), Ghost(start));
            out.push(101u8);
            proof {
                let entries = one.push((key_piece(), Value::Number(dec_text(*piece as nat))));
                assert(entries =~= metadata_header(message@)->Dict_0);
                assert(out@ =~= metadata_payload(message@));
            }
        },
        MetadataMessage::Reject { piece } => {
            push_number_entry(&mut out, msg_type.as_slice(), 2, Ghost(none), Ghost(start));
            let ghost one = none.push((key_msg_type(), Value::Number(dec_text(2))));
            push_number_entry(&mut out, piece_key.as_slice(), *piece, Ghost(one), Ghost(start));
            out.push(101u8);
            proof {
                let entries = one.push((key_piece(), Value::Number(dec_text(*piece as nat))));
                assert(entries =~= metadata_header(message@)->Dict_0);
                assert(out@ =~= metadata_payload(message@));
            }
        },
        MetadataMessage::Data { piece, total_size, block } => {
            push_number_entry(&mut out, msg_type.as_slice(), 1, Ghost(none), Ghost(start));
            let ghost one = none.push((key_msg_type(), Value::Number(dec_text(1))));
            push_number_entry(&mut out, piece_key.as_slice(), *piece, Ghost(one), Ghost(start));
            let ghost two = one.push((key_piece(), Value::Number(dec_text(*piece as nat))));
            push_number_entry(
                &mut out,
                total_size_key.as_slice(),
                *total_size,
                Ghost(two),
                Ghost(start),
            );
            out.push(101u8);
            proof {
                let entries = two.push(
                    (key_total_size(), Value::Number(dec_text(*total_size as nat))),
                );
                assert(entries =~= metadata_header(message@)->Dict_0);
                assert(out@ =~= wire(metadata_header(message@)));
            }
            out.extend_from_slice(block.as_slice());
            assert(out@ =~= metadata_payload(message@));
        },
    }
    out
}

/// Reads the number of an integer entry.
fn read_u32(entry: Option<&Item>) -> (out: Option<u32>)
    ensures
        out == u32_of(
            match entry {
                Some(item) => Some(item@),
                None => None,
            },
        ),
{
    match entry {
        None => None,
        Some(item) => match item.as_u64() {
            Some(n) => if n <= u32::MAX as u64 {
                Some(n as u32)
            } else {
                None
            },
            None => None,
        },
    }
}

/// Reads the message of the metadata exchange that starts at `pos`.
pub fn decode_metadata(input: &[u8], pos: usize) -> (out: Option<MetadataMessage>)
    requires
        pos <= input@.len(),
    ensures
        match out {
            Some(message) => parse_metadata(input@.skip(pos as int)) == Some(message@),
            None => parse_metadata(input@.skip(pos as int)) is None,
        },
{
    let msg_type: [u8; 8] = [109u8, 115, 103, 95, 116, 121, 112, 101];
    let piece_key: [u8; 5] = [112u8, 105, 101, 99, 101];
    let total_size_key: [u8; 10] = [116u8, 111, 116, 97, 108, 95, 115, 105, 122, 101];
    assert(msg_type@ =~= key_msg_type());
    assert(piece_key@ =~= key_piece());
    assert(total_size_key@ =~= key_total_size());
    let item = match decode(input, pos) {
        Ok(item) => item,
        Err(_) => {
            return None;
        },
    };
    let entries = match item.as_dict() {
        Some(entries) => entries,
        None => {
            return None;
        },
    };
    let kind = read_u32(find_entry(entries, msg_type.as_slice()));
    let piece = read_u32(find_entry(entries, piece_key.as_slice()));
    let (kind, piece) = match (kind, piece) {
        (Some(kind), Some(piece)) => (kind, piece),
        _ => {
            return None;
        },
    };
    if kind == 0 {
        Some(MetadataMessage::Request { piece })
    } else if kind == 1 {
        match read_u32(find_entry(entries, total_size_key.as_slice())) {
            Some(total_size) => {
                let total: usize = input.len();
                let from: usize = pos + item.raw_length();
                let block = slice_to_vec(slice_subrange(input, from, total));
                assert(block@ =~= input@.skip(pos as int).skip(item.raw().len() as int));
                Some(MetadataMessage::Data { piece, total_size, block })
            },
            None => None,
        }
    } else if kind == 2 {
        Some(MetadataMessage::Reject { piece })
    } else {
        None
    }
}

/// A message of the metadata exchange is read back from the bytes it was
/// written to.
pub proof fn lemma_metadata_round_trip(m: MetadataView)
    ensures
        parse_metadata(metadata_payload(m)) == Some(m),
{
    let header = metadata_header(m);
    let entries = header->Dict_0;
    let rest = match m {
        MetadataView::Data { block, .. } => block,
        _ => Seq::<u8>::empty(),
    };
    let piece = match m {
        MetadataView::Request { piece } => piece,
        MetadataView::Data { piece, .. } => piece,
        MetadataView::Reject { piece } => piece,
    };
    lemma_dec_text(0);
    lemma_dec_text(1);
    lemma_dec_text(2);
    lemma_dec_text(piece as nat);
    if let MetadataView::Data { total_size, .. } = m {
        lemma_dec_text(total_size as nat);
    }
    assert forall|i: int| 0 <= i < entries.len() implies valid((#[trigger] entries[i]).1) by {}
    assert(valid(header));
    lemma_parse_wire(header, rest);
    assert(metadata_payload(m) =~= wire(header) + rest);
    assert((wire(header) + rest).skip(wire(header).len() as int) =~= rest);
    assert(key_msg_type() != key_piece() && key_msg_type() != key_total_size() && key_piece()
        != key_total_size()) by {
        assert(key_msg_type().len() == 8);
        assert(key_piece().len() == 5);
        assert(key_total_size().len() == 10);
    }
    reveal_with_fuel(dict_get, 4);
    assert(entries[0].0 == key_msg_type());
    assert(entries[1].0 == key_piece());
    assert(entries.skip(1)[0] == entries[1]);
    if let MetadataView::Data { total_size, .. } = m {
        assert(entries.skip(1).skip(1)[0] == entries[2]);
    }
}

} // verus!
