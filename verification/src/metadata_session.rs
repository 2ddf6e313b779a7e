//! The extension phase of a connection: the extension handshake, and for a
//! magnet link the exchange that fetches the info dictionary from the peer.

use crate::bedecode::decode;
use crate::bt_client::message_views;
use crate::metainfo::{identity_bytes, parse_info, MetainfoError};
use crate::peer_extension::MetadataView;
use crate::peer_messages::{
    message_kind, ExtensionsInfo, Message, MessageKind, MessageView, Metadata, MetadataMessage,
};
use crate::sha1::{hash, sha1_digest};
use crate::torrent::{Info, InfoView};
use vstd::prelude::*;
use vstd::slice::slice_to_vec;

verus! {

/// The size of every piece of an info dictionary but the last: 16 KiB.
pub const METADATA_PIECE: u32 = 16384;

/// The id that this client gives to the metadata exchange.
pub const UT_METADATA_ID: u8 = 16;

/// Where the extension phase stands.
#[derive(Debug, Clone, Copy, PartialEq, Eq)]
pub enum ExtensionState {
    /// This client has sent its extension handshake and waits for the peer's.
    WaitingForHandshake,
    /// A piece of the info dictionary has been asked for.
    WaitingForPiece,
    /// The phase is over.
    Done,
}

/// Why the extension phase failed.
#[derive(Debug, Clone, Copy, PartialEq, Eq)]
pub enum ExtensionError {
    /// A message arrived that the state does not allow, or a piece that is
    /// not the one that was asked for.
    ProtocolViolation { expected: ExtensionState, got: MessageKind },
    /// The peer does not offer the metadata exchange.
    ExtensionUnsupported,
    /// The peer refused a piece of the info dictionary.
    MetadataRejected { piece: u32 },
    /// The digest of what the peer sent is not the info-hash of the magnet link.
    InfoHashMismatch,
    /// What the peer sent is not an info dictionary.
    BadMetadata(MetainfoError),
    /// The info dictionary was asked for before it had arrived.
    Incomplete,
}

/// The extension phase as a value.
pub struct ExtensionView {
    pub state: ExtensionState,
    pub our_id: u8,
    pub fetch: bool,
    pub info_hash: Seq<u8>,
    pub peer_id: Option<u8>,
    pub total: Option<u32>,
    pub buffer: Seq<u8>,
    pub bitfield: Option<Seq<u8>>,
}

/// Whether a piece of the info dictionary is the one that was asked for:
/// the next piece, of a dictionary of the size that earlier pieces told,
/// and of 16 KiB or of what is left of the dictionary.
pub open spec fn data_fits(s: ExtensionView, piece: u32, total_size: u32, length: int) -> bool {
    &&& piece * METADATA_PIECE == s.buffer.len()
    &&& (s.total is None || s.total == Some(total_size))
    &&& s.buffer.len() < total_size
    &&& length == if total_size - s.buffer.len() < METADATA_PIECE {
        total_size - s.buffer.len()
    } else {
        METADATA_PIECE as int
    }
}

/// The request for a piece of the info dictionary.
pub open spec fn metadata_request(peer_id: u8, piece: u32) -> MessageView {
    MessageView::Metadata { ext_id: peer_id, message: MetadataView::Request { piece } }
}

/// What a message does to the extension phase: the phase afterwards and
/// the messages to send, or the failure. A keep-alive changes nothing, and
/// a bitfield is kept for the session that follows the phase.
pub open spec fn extension_step(s: ExtensionView, m: MessageView) -> Result<
    (ExtensionView, Seq<MessageView>),
    ExtensionError,
> {
    let violation = Err::<(ExtensionView, Seq<MessageView>), ExtensionError>(
        ExtensionError::ProtocolViolation { expected: s.state, got: message_kind(m) },
    );
    match m {
        MessageView::KeepAlive => Ok((s, seq![])),
        MessageView::BitField { payload } => if s.state == ExtensionState::Done {
            violation
        } else {
            Ok((ExtensionView { bitfield: Some(payload), ..s }, seq![]))
        },
        MessageView::Extension { extensions_info } => if s.state
            != ExtensionState::WaitingForHandshake {
            violation
        } else if !s.fetch {
            Ok((ExtensionView { state: ExtensionState::Done, ..s }, seq![]))
        } else {
            match extensions_info.metdata.ut_metadata {
                Some(id) => if id != 0 {
                    Ok(
                        (
                            ExtensionView {
                                state: ExtensionState::WaitingForPiece,
                                peer_id: Some(id),
                                ..s
                            },
                            seq![metadata_request(id, 0)],
                        ),
                    )
                } else {
                    Err(ExtensionError::ExtensionUnsupported)
                },
                None => Err(ExtensionError::ExtensionUnsupported),
            }
        },
        MessageView::Metadata { ext_id, message } => if s.state != ExtensionState::WaitingForPiece {
            violation
        } else {
            match message {
                MetadataView::Data { piece, total_size, block } => if ext_id == s.our_id
                    && data_fits(s, piece, total_size, block.len() as int) {
                    let buffer = s.buffer + block;
                    if buffer.len() == total_size {
                        Ok(
                            (
                                ExtensionView {
                                    state: ExtensionState::Done,
                                    total: Some(total_size),
                                    buffer,
                                    ..s
                                },
                                seq![],
                            ),
                        )
                    } else {
                        Ok(
                            (
                                ExtensionView { total: Some(total_size), buffer, ..s },
                                seq![metadata_request(s.peer_id.unwrap(), (piece + 1) as u32)],
                            ),
                        )
                    }
                } else {
                    violation
                },
                MetadataView::Reject { piece } => Err(ExtensionError::MetadataRejected { piece }),
                MetadataView::Request { .. } => violation,
            }
        },
        _ => violation,
    }
}

/// What the extension phase hands over at its end.
pub open spec fn extension_result(s: ExtensionView) -> Result<InfoView, ExtensionError> {
    if s.state != ExtensionState::Done || !s.fetch {
        Err(ExtensionError::Incomplete)
    } else if sha1_digest(s.buffer) != s.info_hash {
        Err(ExtensionError::InfoHashMismatch)
    } else {
        match parse_info(s.buffer) {
            Ok(info) => Ok(info),
            Err(e) => Err(ExtensionError::BadMetadata(e)),
        }
    }
}

/// Whether an extension phase is one that `ExtensionSession::new` and the
/// messages after it can lead to.
pub open spec fn extension_wf(s: ExtensionView) -> bool {
    &&& s.info_hash.len() == 20
    &&& s.buffer.len() <= u32::MAX
    &&& s.state == ExtensionState::WaitingForPiece ==> s.fetch && s.peer_id is Some
        && s.peer_id != Some(0u8)
    &&& s.total matches Some(total) ==> s.buffer.len() <= total
}

/// The extension phase of a connection.
pub struct ExtensionSession {
    state: ExtensionState,
    our_id: u8,
    fetch: bool,
    info_hash: [u8; 20],
    peer_id: Option<u8>,
    total: Option<u32>,
    buffer: Vec<u8>,
    bitfield: Option<Vec<u8>>,
}

impl View for ExtensionSession {
    type V = ExtensionView;

    closed spec fn view(&self) -> ExtensionView {
        ExtensionView {
            state: self.state,
            our_id: self.our_id,
            fetch: self.fetch,
            info_hash: self.info_hash@,
            peer_id: self.peer_id,
            total: self.total,
            buffer: self.buffer@,
            bitfield: match self.bitfield {
                Some(payload) => Some(payload@),
                None => None,
            },
        }
    }
}

impl ExtensionSession {
    /// Whether the session is one that can arise.
    pub closed spec fn wf(&self) -> bool {
        extension_wf(self@)
    }

    /// The extension phase of a connection for the torrent `info_hash`.
    /// With `fetch` the phase fetches the info dictionary; without, it is
    /// over once the peer's extension handshake has arrived.
    pub fn new(info_hash: [u8; 20], our_id: u8, fetch: bool) -> (out: ExtensionSession)
        ensures
            out.wf(),
            out@ == (ExtensionView {
                state: ExtensionState::WaitingForHandshake,
                our_id,
                fetch,
                info_hash: info_hash@,
                peer_id: None,
                total: None,
                buffer: Seq::<u8>::empty(),
                bitfield: None,
            }),
    {
        let out = ExtensionSession {
            state: ExtensionState::WaitingForHandshake,
            our_id,
            fetch,
            info_hash,
            peer_id: None,
            total: None,
            buffer: Vec::new(),
            bitfield: None,
        };
        assert(out@.buffer =~= Seq::<u8>::empty());
        out
    }

    /// The message that opens the phase: the extension handshake of this
    /// client, which offers the metadata exchange under its id.
    pub fn start(&self) -> (out: Message)
        ensures
            out@ == (MessageView::Extension {
                extensions_info: ExtensionsInfo {
                    metdata: Metadata { ut_metadata: Some(self@.our_id), ut_pex: None },
                },
            }),
    {
        Message::Extension { extensions_info: ExtensionsInfo::new(self.our_id) }
    }

    /// Where the phase stands.
    pub fn state(&self) -> (out: ExtensionState)
        ensures
            out == self@.state,
    {
        self.state
    }

    /// Whether the phase is over.
    pub fn is_done(&self) -> (out: bool)
        ensures
            out == (self@.state == ExtensionState::Done),
    {
        match self.state {
            ExtensionState::Done => true,
            _ => false,
        }
    }

    /// The id that the peer gave to the metadata exchange, once it is known.
    pub fn peer_metadata_id(&self) -> (out: Option<u8>)
        ensures
            out == self@.peer_id,
    {
        self.peer_id
    }

    /// The bitfield that arrived during the phase, as the message it
    /// arrived in.
    pub fn bitfield(&self) -> (out: Option<Message>)
        ensures
            match out {
                Some(message) => self@.bitfield matches Some(payload) && message@
                    == (MessageView::BitField { payload }),
                None => self@.bitfield is None,
            },
    {
        match &self.bitfield {
            Some(payload) => Some(Message::BitField { payload: slice_to_vec(payload.as_slice()) }),
            None => None,
        }
    }

    /// Takes a message from the peer: the phase moves on as
    /// `extension_step` says and the messages to send come back, or the
    /// phase fails and stays as it was.
    pub fn on_message(&mut self, message: &Message) -> (res: Result<Vec<Message>, ExtensionError>)
        requires
            old(self).wf(),
        ensures
            final(self).wf(),
            match res {
                Ok(send) => extension_step(old(self)@, message@) == Ok::<
                    (ExtensionView, Seq<MessageView>),
                    ExtensionError,
                >((final(self)@, message_views(send@))),
                Err(e) => extension_step(old(self)@, message@) == Err::<
                    (ExtensionView, Seq<MessageView>),
                    ExtensionError,
                >(e) && final(self)@ == old(self)@,
            },
    {
        let violation = ExtensionError::ProtocolViolation {
            expected: self.state,
            got: message.kind(),
        };
        let mut send: Vec<Message> = Vec::new();
        assert(message_views(send@) =~= Seq::<MessageView>::empty());
        match message {
            Message::KeepAlive => {
                return Ok(send);
            },
            Message::BitField { payload } => match self.state {
                ExtensionState::Done => Err(violation),
                _ => {
                    self.bitfield = Some(slice_to_vec(payload.as_slice()));
                    return Ok(send);
                },
            },
            Message::Extension { extensions_info } => match self.state {
                ExtensionState::WaitingForHandshake => {
                    if !self.fetch {
                        self.state = ExtensionState::Done;
                        return Ok(send);
                    }
                    match extensions_info.metdata.ut_metadata {
                        Some(id) => {
                            if id == 0 {
                                return Err(ExtensionError::ExtensionUnsupported);
                            }
                            self.state = ExtensionState::WaitingForPiece;
                            self.peer_id = Some(id);
                            send.push(
                                Message::Metadata {
                                    ext_id: id,
                                    message: MetadataMessage::Request { piece: 0 },
                                },
                            );
                            assert(message_views(send@) =~= seq![metadata_request(id, 0)]);
                            return Ok(send);
                        },
                        None => Err(ExtensionError::ExtensionUnsupported),
                    }
                },
                _ => Err(violation),
            },
            Message::Metadata { ext_id, message: inner } => match self.state {
                ExtensionState::WaitingForPiece => match inner {
                    MetadataMessage::Data { piece, total_size, block } => {
                        let have: usize = self.buffer.len();
                        let known = match self.total {
                            Some(total) => total == *total_size,
                            None => true,
                        };
                        if *ext_id != self.our_id || !known || have >= *total_size as usize {
                            return Err(violation);
                        }
                        if (*piece as u64) * (METADATA_PIECE as u64) != have as u64 {
                            return Err(violation);
                        }
                        let left: usize = *total_size as usize - have;
                        let expected: usize = if left < METADATA_PIECE as usize {
                            left
                        } else {
                            METADATA_PIECE as usize
                        };
                        if block.len() != expected {
                            return Err(violation);
                        }
                        let peer_id = match self.peer_id {
                            Some(peer_id) => peer_id,
                            None => {
                                return Err(violation);
                            },
                        };
                        self.buffer.extend_from_slice(block.as_slice());
                        self.total = Some(*total_size);
                        assert(self@.buffer == old(self)@.buffer + block@);
                        if self.buffer.len() == *total_size as usize {
                            self.state = ExtensionState::Done;
                            return Ok(send);
                        } else {
                            send.push(
                                Message::Metadata {
                                    ext_id: peer_id,
                                    message: MetadataMessage::Request { piece: *piece + 1 },
                                },
                            );
                            assert(message_views(send@) =~= seq![
                                metadata_request(peer_id, (*piece + 1) as u32),
                            ]);
                        }
                        Ok(send)
                    },
                    MetadataMessage::Reject { piece } => Err(
                        ExtensionError::MetadataRejected { piece: *piece },
                    ),
                    MetadataMessage::Request { .. } => Err(violation),
                },
                _ => Err(violation),
            },
            _ => Err(violation),
        }
    }

    /// Hands over the info dictionary that the peer sent, once it is
    /// whole, its digest is the info-hash of the magnet link, and it is an
    /// info dictionary from its first byte to its last.
    pub fn finish(self) -> (res: Result<Info, ExtensionError>)
        requires
            self.wf(),
        ensures
            match res {
                Ok(info) => {
                    &&& extension_result(self@) == Ok::<InfoView, ExtensionError>(info@)
                    &&& info.wf()
                    &&& sha1_digest(identity_bytes(info@)) == self@.info_hash
                },
                Err(e) => extension_result(self@) == Err::<InfoView, ExtensionError>(e),
            },
    {
        match self.state {
            ExtensionState::Done => {},
            _ => {
                return Err(ExtensionError::Incomplete);
            },
        }
        if !self.fetch {
            return Err(ExtensionError::Incomplete);
        }
        let digest = hash(self.buffer.as_slice());
        let mut i: usize = 0;
        while i < 20
            invariant
                i <= 20,
                self@.state == ExtensionState::Done,
                self@.fetch,
                digest@ == sha1_digest(self@.buffer),
                forall|k: int| 0 <= k < i ==> digest@[k] == self.info_hash@[k],
            decreases 20 - i,
        {
            if digest[i] != self.info_hash[i] {
                return Err(ExtensionError::InfoHashMismatch);
            }
            i += 1;
        }
        assert(digest@ =~= self.info_hash@);
        assert(self.buffer@.skip(0) =~= self.buffer@);
        let item = match decode(self.buffer.as_slice(), 0) {
            Ok(item) => item,
            Err(e) => {
                return Err(ExtensionError::BadMetadata(MetainfoError::Bencode(e.kind)));
            },
        };
        if item.raw_length() != self.buffer.len() {
            return Err(ExtensionError::BadMetadata(MetainfoError::BadType));
        }
        assert(item.raw() =~= self.buffer@);
        match Info::from_item(&item) {
            Ok(info) => Ok(info),
            Err(e) => Err(ExtensionError::BadMetadata(e)),
        }
    }
}

} // verus!
