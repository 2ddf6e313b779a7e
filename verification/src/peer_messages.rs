//! The peer wire codec: the 68-byte handshake and the length-prefixed
//! messages that follow it.

use crate::be_bytes::{
    be_u32, lemma_be_u32_of_u32_be, lemma_u32_be_of_be_u32, u32_be, u32_from_be, u32_to_be,
};
use crate::peer_extension::{
    decode_extension, decode_metadata, encode_extension, encode_metadata, extension_payload,
    lemma_extension_round_trip, lemma_metadata_round_trip, metadata_payload, parse_extension,
    parse_metadata, MetadataView,
};
pub use crate::peer_extension::{ExtensionsInfo, Metadata, MetadataMessage};
use vstd::prelude::*;
use vstd::slice::{slice_subrange, slice_to_vec};

verus! {

/// The protocol name that opens every handshake: "BitTorrent protocol".
pub open spec fn protocol_name() -> Seq<u8> {
    seq![
        66u8, 105, 116, 84, 111, 114, 114, 101, 110, 116, 32, 112, 114, 111, 116, 111, 99, 111, 108,
    ]
}

/// What a handshake advertises in its eight reserved bytes.
#[derive(Debug, Clone, Copy, PartialEq, Eq)]
pub enum Extension {
    /// No capability: all eight bytes are zero.
    NoExtension,
    /// The extension protocol, which carries the metadata exchange of magnet links.
    MagnetLink,
}

/// The eight reserved bytes that advertise `extension`.
pub open spec fn capability_bytes(extension: Extension) -> Seq<u8> {
    match extension {
        Extension::NoExtension => seq![0u8, 0, 0, 0, 0, 0, 0, 0],
        Extension::MagnetLink => seq![0u8, 0, 0, 0, 0, 16, 0, 0],
    }
}

/// The capability that eight reserved bytes advertise: the extension
/// protocol when bit `0x10` of the byte at index 5 is set.
pub open spec fn capability_of(reserved: Seq<u8>) -> Extension {
    if reserved[5] & 16 != 0 {
        Extension::MagnetLink
    } else {
        Extension::NoExtension
    }
}

impl Extension {
    /// The eight reserved bytes of a handshake that advertises `self`.
    pub fn to_bytes(&self) -> (out: [u8; 8])
        ensures
            out@ == capability_bytes(*self),
    {
        match self {
            Extension::NoExtension => {
                let out = [0u8, 0, 0, 0, 0, 0, 0, 0];
                assert(out@ =~= capability_bytes(*self));
                out
            },
            Extension::MagnetLink => {
                let out = [0u8, 0, 0, 0, 0, 16, 0, 0];
                assert(out@ =~= capability_bytes(*self));
                out
            },
        }
    }

    /// Reads the capability out of the eight reserved bytes of a handshake.
    pub fn from_bytes(value: &[u8; 8]) -> (out: Extension)
        ensures
            out == capability_of(value@),
    {
        if value[5] & 16 != 0 {
            Extension::MagnetLink
        } else {
            Extension::NoExtension
        }
    }
}

impl From<&[u8; 8]> for Extension {
    fn from(value: &[u8; 8]) -> (out: Extension) {
        Extension::from_bytes(value)
    }
}

impl vstd::std_specs::convert::FromSpecImpl<&[u8; 8]> for Extension {
    open spec fn obeys_from_spec() -> bool {
        true
    }

    open spec fn from_spec(value: &[u8; 8]) -> Extension {
        capability_of(value@)
    }
}

/// The first message of a connection, in both directions.
#[derive(Debug, Clone, Copy, PartialEq, Eq)]
pub struct Handshake {
    pub info_hash: [u8; 20],
    pub peer_id: [u8; 20],
    pub extension: Extension,
}

/// The 68 bytes of a handshake: the length of the protocol name, the name,
/// the reserved bytes, the info-hash and the peer id.
pub open spec fn handshake_bytes(info_hash: Seq<u8>, peer_id: Seq<u8>, extension: Extension) -> Seq<
    u8,
> {
    seq![19u8] + protocol_name() + capability_bytes(extension) + info_hash + peer_id
}

/// Appends `src` to `buf` with `bytes::BufMut::put`, as `Vec<u8>` implements
/// it: the vector afterwards is what it was, followed by the bytes of `src`.
#[verifier::external_body]
fn put_all(buf: &mut Vec<u8>, src: &[u8])
    ensures
        final(buf)@ == old(buf)@ + src@,
{
    bytes::BufMut::put(buf, src)
}

impl Handshake {
    /// A handshake that advertises no capability.
    pub fn new(info_hash: [u8; 20], peer_id: [u8; 20]) -> (out: Handshake)
        ensures
            out.info_hash == info_hash,
            out.peer_id == peer_id,
            out.extension == Extension::NoExtension,
    {
        Handshake::with_extension(info_hash, peer_id, Extension::NoExtension)
    }

    /// A handshake that advertises `extension`.
    pub fn with_extension(info_hash: [u8; 20], peer_id: [u8; 20], extension: Extension) -> (out:
        Handshake)
        ensures
            out.info_hash == info_hash,
            out.peer_id == peer_id,
            out.extension == extension,
    {
        Handshake { info_hash, peer_id, extension }
    }

    /// The bytes of this handshake on the wire.
    pub open spec fn wire(&self) -> Seq<u8> {
        handshake_bytes(self.info_hash@, self.peer_id@, self.extension)
    }

    /// The 68 bytes of the handshake.
    pub fn to_bytes(&self) -> (out: [u8; 68])
        ensures
            out@ == self.wire(),
    {
        let name: [u8; 19] = [
            66u8, 105, 116, 84, 111, 114, 114, 101, 110, 116, 32, 112, 114, 111, 116, 111, 99, 111, 108,
        ];
        assert(name@ =~= protocol_name());
        let mut buf: Vec<u8> = Vec::new();
        buf.push(19u8);
        buf.extend_from_slice(name.as_slice());
        let reserved = self.extension.to_bytes();
        put_all(&mut buf, reserved.as_slice());
        put_all(&mut buf, self.info_hash.as_slice());
        put_all(&mut buf, self.peer_id.as_slice());
        assert(buf@ =~= self.wire());
        let mut out = [0u8; 68];
        let mut i: usize = 0;
        while i < 68
            invariant
                i <= 68,
                buf@.len() == 68,
                forall|j: int| 0 <= j < i ==> out@[j] == buf@[j],
            decreases 68 - i,
        {
            out[i] = buf[i];
            i += 1;
        }
        assert(out@ =~= buf@);
        out
    }

    /// Reads a handshake out of its 68 bytes. The protocol name is not examined.
    pub fn from_bytes(value: &[u8; 68]) -> (out: Handshake)
        ensures
            out.info_hash@ == value@.subrange(28, 48),
            out.peer_id@ == value@.subrange(48, 68),
            out.extension == capability_of(value@.subrange(20, 28)),
    {
        let mut info_hash = [0u8; 20];
        let mut peer_id = [0u8; 20];
        let mut i: usize = 0;
        while i < 20
            invariant
                i <= 20,
                forall|j: int| 0 <= j < i ==> info_hash@[j] == value@[28 + j],
                forall|j: int| 0 <= j < i ==> peer_id@[j] == value@[48 + j],
            decreases 20 - i,
        {
            info_hash[i] = value[28 + i];
            peer_id[i] = value[48 + i];
            i += 1;
        }
        assert(info_hash@ =~= value@.subrange(28, 48));
        assert(peer_id@ =~= value@.subrange(48, 68));
        let extension = if value[25] & 16 != 0 {
            Extension::MagnetLink
        } else {
            Extension::NoExtension
        };
        assert(value@.subrange(20, 28)[5] == value@[25]);
        Handshake { info_hash, peer_id, extension }
    }
}

/// Whether `handshake` is what the 68 bytes `value` spell.
pub open spec fn handshake_of(value: Seq<u8>, handshake: Handshake) -> bool {
    &&& handshake.info_hash@ == value.subrange(28, 48)
    &&& handshake.peer_id@ == value.subrange(48, 68)
    &&& handshake.extension == capability_of(value.subrange(20, 28))
}

impl From<&[u8; 68]> for Handshake {
    fn from(value: &[u8; 68]) -> (out: Handshake) {
        let out = Handshake::from_bytes(value);
        proof {
            let other = choose|handshake: Handshake| handshake_of(value@, handshake);
            assert(handshake_of(value@, out));
            assert(out.info_hash@ =~= other.info_hash@);
            assert(out.peer_id@ =~= other.peer_id@);
            assert(out.info_hash == other.info_hash);
            assert(out.peer_id == other.peer_id);
        }
        out
    }
}

impl vstd::std_specs::convert::FromSpecImpl<&[u8; 68]> for Handshake {
    open spec fn obeys_from_spec() -> bool {
        true
    }

    open spec fn from_spec(value: &[u8; 68]) -> Handshake {
        choose|handshake: Handshake| handshake_of(value@, handshake)
    }
}

/// A handshake is read back from the bytes it was written to, with the
/// capability it advertised.
pub proof fn lemma_handshake_round_trip(info_hash: Seq<u8>, peer_id: Seq<u8>, extension: Extension)
    requires
        info_hash.len() == 20,
        peer_id.len() == 20,
    ensures
        handshake_bytes(info_hash, peer_id, extension).len() == 68,
        handshake_bytes(info_hash, peer_id, extension).subrange(28, 48) == info_hash,
        handshake_bytes(info_hash, peer_id, extension).subrange(48, 68) == peer_id,
        capability_of(handshake_bytes(info_hash, peer_id, extension).subrange(20, 28))
            == extension,
        handshake_bytes(info_hash, peer_id, extension)[0] == 19,
        handshake_bytes(info_hash, peer_id, extension).subrange(1, 20) == protocol_name(),
{
    let b = handshake_bytes(info_hash, peer_id, extension);
    assert(b.subrange(28, 48) =~= info_hash);
    assert(b.subrange(48, 68) =~= peer_id);
    assert(b.subrange(1, 20) =~= protocol_name());
    assert(b.subrange(20, 28) =~= capability_bytes(extension));
    assert(0u8 & 16 == 0) by (bit_vector);
    assert(16u8 & 16 != 0) by (bit_vector);
}

/// Why bytes are not a message, or a message cannot be written.
#[derive(Debug, Clone, Copy, PartialEq, Eq)]
pub enum MessageError {
    /// Fewer than the four bytes of the length prefix.
    TooShort,
    /// The length prefix is not the number of bytes that follow it.
    LengthMismatch,
    /// A message id that this client does not know.
    UnknownId(u8),
    /// The payload does not have the form that the message id asks for.
    BadPayload(u8),
    /// The payload of an extension message is neither an extension
    /// handshake nor a message of the metadata exchange.
    BadExtension,
    /// The message is too long for a 32-bit length prefix.
    TooLong,
}

/// A message of the peer wire protocol.
#[derive(Debug, Clone, PartialEq, Eq)]
pub enum Message {
    KeepAlive,
    BitField { payload: Vec<u8> },
    Interested,
    Choke,
    Unchoke,
    Request { index: u32, begin: u32, length: u32 },
    Piece { index: u32, begin: u32, block: Vec<u8> },
    /// The extension handshake: the extension message with the id 0.
    Extension { extensions_info: ExtensionsInfo },
    /// A message of the metadata exchange: the extension message with the
    /// id that its receiver gave to the exchange, which is not 0.
    Metadata { ext_id: u8, message: MetadataMessage },
}

/// A message, with the bytes it carries as sequences.
pub enum MessageView {
    KeepAlive,
    BitField { payload: Seq<u8> },
    Interested,
    Choke,
    Unchoke,
    Request { index: u32, begin: u32, length: u32 },
    Piece { index: u32, begin: u32, block: Seq<u8> },
    Extension { extensions_info: ExtensionsInfo },
    Metadata { ext_id: u8, message: MetadataView },
}

impl View for Message {
    type V = MessageView;

    open spec fn view(&self) -> MessageView {
        match self {
            Message::KeepAlive => MessageView::KeepAlive,
            Message::BitField { payload } => MessageView::BitField { payload: payload@ },
            Message::Interested => MessageView::Interested,
            Message::Choke => MessageView::Choke,
            Message::Unchoke => MessageView::Unchoke,
            Message::Request { index, begin, length } => MessageView::Request {
                index: *index,
                begin: *begin,
                length: *length,
            },
            Message::Piece { index, begin, block } => MessageView::Piece {
                index: *index,
                begin: *begin,
                block: block@,
            },
            Message::Extension { extensions_info } => MessageView::Extension {
                extensions_info: *extensions_info,
            },
            Message::Metadata { ext_id, message } => MessageView::Metadata {
                ext_id: *ext_id,
                message: message@,
            },
        }
    }
}

/// What follows the length prefix: nothing for a keep-alive, else the
/// message id and the payload.
pub open spec fn message_body(m: MessageView) -> Seq<u8> {
    match m {
        MessageView::KeepAlive => seq![],
        MessageView::Choke => seq![0u8],
        MessageView::Unchoke => seq![1u8],
        MessageView::Interested => seq![2u8],
        MessageView::BitField { payload } => seq![5u8] + payload,
        MessageView::Request { index, begin, length } => seq![6u8] + u32_be(index as int) + u32_be(
            begin as int,
        ) + u32_be(length as int),
        MessageView::Piece { index, begin, block } => seq![7u8] + u32_be(index as int) + u32_be(
            begin as int,
        ) + block,
        MessageView::Extension { extensions_info } => seq![20u8, 0u8] + extension_payload(
            extensions_info,
        ),
        MessageView::Metadata { ext_id, message } => seq![20u8, ext_id] + metadata_payload(message),
    }
}

/// The bytes of a message on the wire: the length of its body as a
/// big-endian `u32`, then the body.
pub open spec fn message_frame(m: MessageView) -> Seq<u8> {
    u32_be(message_body(m).len() as int) + message_body(m)
}

/// The message that a body spells.
pub open spec fn parse_body(body: Seq<u8>) -> Result<MessageView, MessageError> {
    if body.len() == 0 {
        Ok(MessageView::KeepAlive)
    } else if body[0] == 0 || body[0] == 1 || body[0] == 2 {
        if body.len() != 1 {
            Err(MessageError::BadPayload(body[0]))
        } else if body[0] == 0 {
            Ok(MessageView::Choke)
        } else if body[0] == 1 {
            Ok(MessageView::Unchoke)
        } else {
            Ok(MessageView::Interested)
        }
    } else if body[0] == 5 {
        Ok(MessageView::BitField { payload: body.skip(1) })
    } else if body[0] == 6 {
        if body.len() != 13 {
            Err(MessageError::BadPayload(6))
        } else {
            Ok(
                MessageView::Request {
                    index: be_u32(body.subrange(1, 5)) as u32,
                    begin: be_u32(body.subrange(5, 9)) as u32,
                    length: be_u32(body.subrange(9, 13)) as u32,
                },
            )
        }
    } else if body[0] == 7 {
        if body.len() < 9 {
            Err(MessageError::BadPayload(7))
        } else {
            Ok(
                MessageView::Piece {
                    index: be_u32(body.subrange(1, 5)) as u32,
                    begin: be_u32(body.subrange(5, 9)) as u32,
                    block: body.skip(9),
                },
            )
        }
    } else if body[0] == 20 {
        if body.len() < 2 {
            Err(MessageError::BadPayload(20))
        } else if body[1] == 0 {
            match parse_extension(body.skip(2)) {
                Some(extensions_info) => Ok(MessageView::Extension { extensions_info }),
                None => Err(MessageError::BadExtension),
            }
        } else {
            match parse_metadata(body.skip(2)) {
                Some(message) => Ok(MessageView::Metadata { ext_id: body[1], message }),
                None => Err(MessageError::BadExtension),
            }
        }
    } else {
        Err(MessageError::UnknownId(body[0]))
    }
}

/// The message that a whole frame spells: the length prefix must be the
/// number of bytes that follow it.
pub open spec fn parse_frame(input: Seq<u8>) -> Result<MessageView, MessageError> {
    if input.len() < 4 {
        Err(MessageError::TooShort)
    } else if be_u32(input.take(4)) != input.len() - 4 {
        Err(MessageError::LengthMismatch)
    } else {
        parse_body(input.skip(4))
    }
}

/// The kinds of messages.
#[derive(Debug, Clone, Copy, PartialEq, Eq)]
pub enum MessageKind {
    KeepAlive,
    BitField,
    Interested,
    Choke,
    Unchoke,
    Request,
    Piece,
    Extension,
    Metadata,
}

/// The kind of a message.
pub open spec fn message_kind(m: MessageView) -> MessageKind {
    match m {
        MessageView::KeepAlive => MessageKind::KeepAlive,
        MessageView::BitField { .. } => MessageKind::BitField,
        MessageView::Interested => MessageKind::Interested,
        MessageView::Choke => MessageKind::Choke,
        MessageView::Unchoke => MessageKind::Unchoke,
        MessageView::Request { .. } => MessageKind::Request,
        MessageView::Piece { .. } => MessageKind::Piece,
        MessageView::Extension { .. } => MessageKind::Extension,
        MessageView::Metadata { .. } => MessageKind::Metadata,
    }
}

/// The name of the kind of a message.
pub open spec fn message_name(m: MessageView) -> Seq<char> {
    match m {
        MessageView::KeepAlive => "KeepAlive"@,
        MessageView::BitField { .. } => "BitField"@,
        MessageView::Interested => "Interested"@,
        MessageView::Choke => "Choke"@,
        MessageView::Unchoke => "Unchoke"@,
        MessageView::Request { .. } => "Request"@,
        MessageView::Piece { .. } => "Piece"@,
        MessageView::Extension { .. } => "Extensions"@,
        MessageView::Metadata { .. } => "Metadata"@,
    }
}

impl Message {
    /// The bytes of the message on the wire, unless its body is too long
    /// for the length prefix.
    pub fn to_bytes(&self) -> (res: Result<Vec<u8>, MessageError>)
        ensures
            match res {
                Ok(bytes) => message_body(self@).len() <= u32::MAX && bytes@ == message_frame(
                    self@,
                ),
                Err(e) => message_body(self@).len() > u32::MAX && e == MessageError::TooLong,
            },
    {
        let mut body: Vec<u8> = Vec::new();
        match self {
            Message::KeepAlive => {},
            Message::Choke => {
                body.push(0u8);
            },
            Message::Unchoke => {
                body.push(1u8);
            },
            Message::Interested => {
                body.push(2u8);
            },
            Message::BitField { payload } => {
                body.push(5u8);
                body.extend_from_slice(payload.as_slice());
            },
            Message::Request { index, begin, length } => {
                body.push(6u8);
                body.extend_from_slice(u32_to_be(*index).as_slice());
                body.extend_from_slice(u32_to_be(*begin).as_slice());
                body.extend_from_slice(u32_to_be(*length).as_slice());
            },
            Message::Piece { index, begin, block } => {
                body.push(7u8);
                body.extend_from_slice(u32_to_be(*index).as_slice());
                body.extend_from_slice(u32_to_be(*begin).as_slice());
                body.extend_from_slice(block.as_slice());
            },
            Message::Extension { extensions_info } => {
                let payload = encode_extension(extensions_info);
                body.push(20u8);
                body.push(0u8);
                body.extend_from_slice(payload.as_slice());
            },
            Message::Metadata { ext_id, message } => {
                let payload = encode_metadata(message);
                body.push(20u8);
                body.push(*ext_id);
                body.extend_from_slice(payload.as_slice());
            },
        }
        assert(body@ =~= message_body(self@));
        let prefix = Message::usize_to_u32_be_bytes(body.len())?;
        let mut out: Vec<u8> = Vec::new();
        out.extend_from_slice(prefix.as_slice());
        out.extend_from_slice(body.as_slice());
        Ok(out)
    }

    /// The four bytes of a length prefix, unless the length does not fit in them.
    pub fn usize_to_u32_be_bytes(input: usize) -> (res: Result<[u8; 4], MessageError>)
        ensures
            match res {
                Ok(bytes) => input <= u32::MAX && bytes@ == u32_be(input as int),
                Err(e) => input > u32::MAX && e == MessageError::TooLong,
            },
    {
        if input > u32::MAX as usize {
            Err(MessageError::TooLong)
        } else {
            Ok(u32_to_be(input as u32))
        }
    }

    /// The number of bytes that follow a length prefix.
    pub fn body_length(prefix: &[u8; 4]) -> (n: u32)
        ensures
            n == be_u32(prefix@),
    {
        assert(prefix@.subrange(0, 4) =~= prefix@);
        u32_from_be(prefix.as_slice(), 0)
    }

    /// Reads a message out of a whole frame, length prefix included.
    pub fn from_bytes(input: &[u8]) -> (res: Result<Message, MessageError>)
        ensures
            match res {
                Ok(m) => parse_frame(input@) == Ok::<MessageView, MessageError>(m@),
                Err(e) => parse_frame(input@) == Err::<MessageView, MessageError>(e),
            },
    {
        let total: usize = input.len();
        if total < 4 {
            return Err(MessageError::TooShort);
        }
        let declared = u32_from_be(input, 0);
        assert(input@.take(4) =~= input@.subrange(0, 4));
        if declared as usize != total - 4 {
            return Err(MessageError::LengthMismatch);
        }
        let ghost body = input@.skip(4);
        if total == 4 {
            return Ok(Message::KeepAlive);
        }
        let id = input[4];
        assert(body[0] == id);
        if id == 0 || id == 1 || id == 2 {
            if total != 5 {
                Err(MessageError::BadPayload(id))
            } else if id == 0 {
                Ok(Message::Choke)
            } else if id == 1 {
                Ok(Message::Unchoke)
            } else {
                Ok(Message::Interested)
            }
        } else if id == 5 {
            let payload = slice_to_vec(slice_subrange(input, 5, total));
            assert(payload@ =~= body.skip(1));
            Ok(Message::BitField { payload })
        } else if id == 6 {
            if total != 17 {
                Err(MessageError::BadPayload(6))
            } else {
                proof {
                    assert(body.subrange(1, 5) =~= input@.subrange(5, 9));
                    assert(body.subrange(5, 9) =~= input@.subrange(9, 13));
                    assert(body.subrange(9, 13) =~= input@.subrange(13, 17));
                }
                Ok(
                    Message::Request {
                        index: u32_from_be(input, 5),
                        begin: u32_from_be(input, 9),
                        length: u32_from_be(input, 13),
                    },
                )
            }
        } else if id == 7 {
            if total < 13 {
                Err(MessageError::BadPayload(7))
            } else {
                proof {
                    assert(body.subrange(1, 5) =~= input@.subrange(5, 9));
                    assert(body.subrange(5, 9) =~= input@.subrange(9, 13));
                }
                let block = slice_to_vec(slice_subrange(input, 13, total));
                assert(block@ =~= body.skip(9));
                Ok(
                    Message::Piece {
                        index: u32_from_be(input, 5),
                        begin: u32_from_be(input, 9),
                        block,
                    },
                )
            }
        } else if id == 20 {
            if total < 6 {
                Err(MessageError::BadPayload(20))
            } else {
                assert(body[1] == input@[5]);
                assert(body.skip(2) =~= input@.skip(6));
                let ext_id = input[5];
                if ext_id == 0 {
                    match decode_extension(input, 6) {
                        Some(extensions_info) => Ok(Message::Extension { extensions_info }),
                        None => Err(MessageError::BadExtension),
                    }
                } else {
                    match decode_metadata(input, 6) {
                        Some(message) => Ok(Message::Metadata { ext_id, message }),
                        None => Err(MessageError::BadExtension),
                    }
                }
            }
        } else {
            Err(MessageError::UnknownId(id))
        }
    }

    /// The kind of this message.
    pub fn kind(&self) -> (out: MessageKind)
        ensures
            out == message_kind(self@),
    {
        match self {
            Message::KeepAlive => MessageKind::KeepAlive,
            Message::BitField { .. } => MessageKind::BitField,
            Message::Interested => MessageKind::Interested,
            Message::Choke => MessageKind::Choke,
            Message::Unchoke => MessageKind::Unchoke,
            Message::Request { .. } => MessageKind::Request,
            Message::Piece { .. } => MessageKind::Piece,
            Message::Extension { .. } => MessageKind::Extension,
            Message::Metadata { .. } => MessageKind::Metadata,
        }
    }

    /// The name of the kind of this message.
    pub fn name(&self) -> (out: &'static str)
        ensures
            out@ == message_name(self@),
    {
        match self {
            Message::KeepAlive => "KeepAlive",
            Message::BitField { .. } => "BitField",
            Message::Interested => "Interested",
            Message::Choke => "Choke",
            Message::Unchoke => "Unchoke",
            Message::Request { .. } => "Request",
            Message::Piece { .. } => "Piece",
            Message::Extension { .. } => "Extensions",
            Message::Metadata { .. } => "Metadata",
        }
    }
}

/// Every message is read back from the bytes it was written to, and the
/// length prefix of those bytes is the length of the body: zero for a
/// keep-alive, else one for the message id and the length of the payload.
pub proof fn lemma_message_round_trip(m: MessageView)
    requires
        message_body(m).len() <= u32::MAX,
        m matches MessageView::Metadata { ext_id, .. } ==> ext_id != 0,
    ensures
        message_frame(m).len() == 4 + message_body(m).len(),
        be_u32(message_frame(m).take(4)) == message_body(m).len(),
        m is KeepAlive <==> message_body(m).len() == 0,
        parse_frame(message_frame(m)) == Ok::<MessageView, MessageError>(m),
{
    let body = message_body(m);
    let frame = message_frame(m);
    lemma_be_u32_of_u32_be(body.len() as int);
    assert(frame.take(4) =~= u32_be(body.len() as int));
    assert(frame.skip(4) =~= body);
    match m {
        MessageView::BitField { payload } => {
            assert(body.skip(1) =~= payload);
        },
        MessageView::Request { index, begin, length } => {
            lemma_be_u32_of_u32_be(index as int);
            lemma_be_u32_of_u32_be(begin as int);
            lemma_be_u32_of_u32_be(length as int);
            assert(body.subrange(1, 5) =~= u32_be(index as int));
            assert(body.subrange(5, 9) =~= u32_be(begin as int));
            assert(body.subrange(9, 13) =~= u32_be(length as int));
        },
        MessageView::Piece { index, begin, block } => {
            lemma_be_u32_of_u32_be(index as int);
            lemma_be_u32_of_u32_be(begin as int);
            assert(body.subrange(1, 5) =~= u32_be(index as int));
            assert(body.subrange(5, 9) =~= u32_be(begin as int));
            assert(body.skip(9) =~= block);
        },
        MessageView::Extension { extensions_info } => {
            lemma_extension_round_trip(extensions_info, Seq::<u8>::empty());
            assert(body.skip(2) =~= extension_payload(extensions_info) + Seq::<u8>::empty());
        },
        MessageView::Metadata { ext_id, message } => {
            lemma_metadata_round_trip(message);
            assert(body.skip(2) =~= metadata_payload(message));
        },
        _ => {},
    }
}

/// A frame that is read as a message other than an extension message is
/// the one frame that this message is written as.
pub proof fn lemma_message_frame_unique(input: Seq<u8>, m: MessageView)
    requires
        parse_frame(input) == Ok::<MessageView, MessageError>(m),
        !(m is Extension),
        !(m is Metadata),
    ensures
        message_frame(m) == input,
{
    let body = input.skip(4);
    lemma_u32_be_of_be_u32(input.take(4));
    assert(input =~= input.take(4) + body);
    match m {
        MessageView::BitField { payload } => {
            assert(message_body(m) =~= body);
        },
        MessageView::Request { index, begin, length } => {
            lemma_u32_be_of_be_u32(body.subrange(1, 5));
            lemma_u32_be_of_be_u32(body.subrange(5, 9));
            lemma_u32_be_of_be_u32(body.subrange(9, 13));
            assert(message_body(m) =~= body);
        },
        MessageView::Piece { index, begin, block } => {
            lemma_u32_be_of_be_u32(body.subrange(1, 5));
            lemma_u32_be_of_be_u32(body.subrange(5, 9));
            assert(message_body(m) =~= body);
        },
        _ => {
            assert(message_body(m) =~= body);
        },
    }
}

} // verus!
