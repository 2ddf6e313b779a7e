//! The session that collects one piece from one peer: what to send for
//! each message that arrives, and when the piece is whole.

use crate::geometry::{block_length, blocks_count, lemma_block_bounds, lemma_piece_bounds};
use crate::peer_messages::{
    handshake_bytes, message_kind, Extension, Handshake, Message, MessageKind, MessageView,
};
use crate::sha1::{hash, sha1_digest};
use crate::torrent::{blocks_of, BlockInfo, Info, PieceInfo, Torrent};
use crate::tracker::{
    parse_response, peer_views, PeerAddr, PeerView, Response, TrackerError, TrackerErrorView,
};
use crate::tracker_info::{announce_request, tracker_url, UrlError};
use crate::url_text::url_text;
use vstd::prelude::*;
use vstd::string::StringSliceAdditionalSpecFns;

verus! {

/// Where a session stands.
#[derive(Debug, Clone, Copy, PartialEq, Eq)]
pub enum State {
    /// Nothing has arrived yet: the peer first tells which pieces it has.
    WaitingForBitField,
    /// Interest has been declared: the peer must allow requests.
    WaitingForUnchoke,
    /// Every block has been asked for: the blocks arrive.
    WaitingForPieceBlock,
    /// Every block has arrived.
    Done,
}

/// Why a session ended without its piece.
#[derive(Debug, Clone, Copy, PartialEq, Eq)]
pub enum SessionError {
    /// A message arrived that the state does not allow, or a block that
    /// does not belong to the piece.
    ProtocolViolation { expected: State, got: MessageKind },
    /// The piece is whole and its digest is not the one of the metainfo.
    PieceHashMismatch { index: u32 },
    /// The piece was asked for before every block had arrived.
    Incomplete,
}

/// A session as a value.
pub struct SessionView {
    pub state: State,
    pub index: u32,
    pub block_size: u32,
    pub expected: Seq<u8>,
    pub buffer: Seq<u8>,
    pub blocks: Seq<(u32, u32)>,
}

/// The lengths of the blocks that have been recorded, added up.
pub open spec fn received(blocks: Seq<(u32, u32)>) -> int
    decreases blocks.len(),
{
    if blocks.len() == 0 {
        0
    } else {
        received(blocks.drop_last()) + blocks.last().1
    }
}

/// The buffer with `block` written over it from `at` on.
pub open spec fn write_at(buffer: Seq<u8>, at: int, block: Seq<u8>) -> Seq<u8> {
    buffer.take(at) + block + buffer.skip(at + block.len())
}

/// The requests for every block of piece `index`, in ascending order of
/// their offsets.
pub open spec fn requests(index: u32, size: int, block_size: int) -> Seq<MessageView> {
    Seq::new(
        blocks_count(size, block_size) as nat,
        |j: int|
            MessageView::Request {
                index,
                begin: (j * block_size) as u32,
                length: block_length(size, block_size, j) as u32,
            },
    )
}

/// Whether a block of `length` bytes at `begin` belongs to the piece: it
/// lies inside the piece, and either has been recorded before or does not
/// take the recorded blocks beyond the size of the piece.
pub open spec fn block_fits(s: SessionView, begin: u32, length: int) -> bool {
    &&& begin + length <= s.buffer.len()
    &&& (s.blocks.contains((begin, length as u32)) || received(s.blocks) + length
        <= s.buffer.len())
}

/// The session after a block has been written and recorded.
pub open spec fn with_block(s: SessionView, begin: u32, block: Seq<u8>) -> SessionView {
    let key = (begin, block.len() as u32);
    let blocks = if s.blocks.contains(key) {
        s.blocks
    } else {
        s.blocks.push(key)
    };
    SessionView {
        state: if received(blocks) == s.buffer.len() {
            State::Done
        } else {
            State::WaitingForPieceBlock
        },
        buffer: write_at(s.buffer, begin as int, block),
        blocks,
        ..s
    }
}

/// What a message does to a session: the session afterwards and the
/// messages to send, or the failure. A keep-alive changes nothing.
pub open spec fn step(s: SessionView, m: MessageView) -> Result<
    (SessionView, Seq<MessageView>),
    SessionError,
> {
    match (s.state, m) {
        (_, MessageView::KeepAlive) => Ok((s, seq![])),
        (State::WaitingForBitField, MessageView::BitField { .. }) => Ok(
            (SessionView { state: State::WaitingForUnchoke, ..s }, seq![MessageView::Interested]),
        ),
        (State::WaitingForUnchoke, MessageView::Unchoke) => Ok(
            (
                SessionView { state: State::WaitingForPieceBlock, ..s },
                requests(s.index, s.buffer.len() as int, s.block_size as int),
            ),
        ),
        (State::WaitingForPieceBlock, MessageView::Piece { index, begin, block }) => if index
            == s.index && block_fits(s, begin, block.len() as int) {
            Ok((with_block(s, begin, block), seq![]))
        } else {
            Err(SessionError::ProtocolViolation { expected: s.state, got: MessageKind::Piece })
        },
        _ => Err(SessionError::ProtocolViolation { expected: s.state, got: message_kind(m) }),
    }
}

/// Whatever arrives, a session stays with its piece: the index, the
/// digest that the piece must have, the size of the piece and the size of
/// the blocks do not change. So the piece that a session hands out at its
/// end has the digest that the session was made with.
pub proof fn lemma_step_keeps_piece(s: SessionView, m: MessageView)
    requires
        step(s, m) is Ok,
    ensures
        ({
            let after = step(s, m)->Ok_0.0;
            &&& after.index == s.index
            &&& after.expected == s.expected
            &&& after.block_size == s.block_size
            &&& after.buffer.len() == s.buffer.len()
        }),
{
}

/// The messages of a sequence as values.
pub open spec fn message_views(messages: Seq<Message>) -> Seq<MessageView> {
    Seq::new(messages.len(), |i: int| messages[i]@)
}

/// Recording one more block adds its length.
pub proof fn lemma_received_push(blocks: Seq<(u32, u32)>, key: (u32, u32))
    ensures
        received(blocks.push(key)) == received(blocks) + key.1,
        received(blocks) >= 0,
    decreases blocks.len(),
{
    assert(blocks.push(key).drop_last() =~= blocks);
    if blocks.len() > 0 {
        lemma_received_push(blocks.drop_last(), blocks.last());
        assert(blocks.drop_last().push(blocks.last()) =~= blocks);
    }
}

/// Writes `block` over `buffer` from `at` on.
pub fn write_block(buffer: &mut Vec<u8>, at: usize, block: &[u8])
    requires
        at + block@.len() <= old(buffer)@.len(),
    ensures
        final(buffer)@ == write_at(old(buffer)@, at as int, block@),
{
    let ghost before = buffer@;
    let size: usize = buffer.len();
    let mut k: usize = 0;
    while k < block.len()
        invariant
            k <= block@.len(),
            size == before.len(),
            at + block@.len() <= before.len(),
            buffer@.len() == before.len(),
            forall|t: int| 0 <= t < k ==> buffer@[at + t] == block@[t],
            forall|x: int|
                0 <= x < before.len() && !(at <= x < at + k) ==> buffer@[x] == before[x],
        decreases block@.len() - k,
    {
        buffer.set(at + k, block[k]);
        k += 1;
    }
    assert(buffer@ =~= write_at(before, at as int, block@));
}

/// The session that collects one piece.
pub struct PieceSession {
    state: State,
    index: u32,
    block_size: u32,
    expected: [u8; 20],
    piece: Vec<u8>,
    collected: Vec<(u32, u32)>,
    total: usize,
}

impl View for PieceSession {
    type V = SessionView;

    closed spec fn view(&self) -> SessionView {
        SessionView {
            state: self.state,
            index: self.index,
            block_size: self.block_size,
            expected: self.expected@,
            buffer: self.piece@,
            blocks: self.collected@,
        }
    }
}

/// Whether a session is one that `PieceSession::new` and the messages
/// after it can lead to.
pub open spec fn session_wf(s: SessionView) -> bool {
    &&& 0 < s.buffer.len() <= u32::MAX
    &&& s.block_size > 0
    &&& s.expected.len() == 20
    &&& 0 <= received(s.blocks) <= s.buffer.len()
    &&& (s.state == State::Done <==> received(s.blocks) == s.buffer.len())
    &&& forall|i: int, j: int|
        0 <= i < j < s.blocks.len() ==> #[trigger] s.blocks[i] != #[trigger] s.blocks[j]
}

impl PieceSession {
    /// Whether the session holds what its view tells and is one that can arise.
    pub closed spec fn wf(&self) -> bool {
        &&& session_wf(self@)
        &&& self.total == received(self.collected@)
    }

    /// The session for piece `index` of `info`, whose blocks are asked for
    /// `block_size` bytes at a time; `None` where there is no such piece.
    pub fn new(info: &Info, index: u32, block_size: u32) -> (out: Option<PieceSession>)
        requires
            info.wf(),
            block_size > 0,
        ensures
            match out {
                None => index >= info.spec_pieces_count(),
                Some(session) => {
                    &&& index < info.spec_pieces_count()
                    &&& session.wf()
                    &&& session@.state == State::WaitingForBitField
                    &&& session@.index == index
                    &&& session@.block_size == block_size
                    &&& session@.expected == info.pieces@[index as int]
                    &&& session@.buffer == Seq::new(
                        info.spec_piece_size(index as int) as nat,
                        |i: int| 0u8,
                    )
                    &&& session@.blocks == Seq::<(u32, u32)>::empty()
                },
            },
    {
        let pieces = info.pieces_info();
        if index as usize >= pieces.len() {
            return None;
        }
        let size: usize = pieces[index as usize].length;
        proof {
            lemma_piece_bounds(
                info.piece_length as int,
                info.spec_pieces_count(),
                info.spec_total_len(),
                index as int,
            );
            assert(pieces@[index as int] == info.spec_piece_info(index as int));
        }
        let mut piece: Vec<u8> = Vec::new();
        let mut i: usize = 0;
        while i < size
            invariant
                i <= size,
                piece@.len() == i,
                forall|k: int| 0 <= k < i ==> piece@[k] == 0u8,
            decreases size - i,
        {
            piece.push(0u8);
            i += 1;
        }
        let out = PieceSession {
            state: State::WaitingForBitField,
            index,
            block_size,
            expected: info.pieces.0[index as usize],
            piece,
            collected: Vec::new(),
            total: 0,
        };
        proof {
            assert(out@.buffer =~= Seq::new(
                info.spec_piece_size(index as int) as nat,
                |i: int| 0u8,
            ));
            assert(out@.blocks =~= Seq::<(u32, u32)>::empty());
        }
        Some(out)
    }

    /// Where the session stands.
    pub fn state(&self) -> (out: State)
        ensures
            out == self@.state,
    {
        self.state
    }

    /// Whether every block has arrived.
    pub fn is_complete(&self) -> (out: bool)
        requires
            self.wf(),
        ensures
            out == (self@.state == State::Done),
            out == (received(self@.blocks) == self@.buffer.len()),
    {
        match self.state {
            State::Done => true,
            _ => false,
        }
    }

    /// The requests for every block of the piece, in ascending order of
    /// their offsets.
    fn all_requests(&self) -> (out: Vec<Message>)
        requires
            self.wf(),
        ensures
            message_views(out@) == requests(
                self@.index,
                self@.buffer.len() as int,
                self@.block_size as int,
            ),
    {
        let size: usize = self.piece.len();
        let blocks = blocks_of(size, self.block_size as usize);
        let mut out: Vec<Message> = Vec::new();
        let mut j: usize = 0;
        while j < blocks.len()
            invariant
                j <= blocks@.len(),
                0 < size <= u32::MAX,
                self.block_size > 0,
                size == self@.buffer.len(),
                blocks@.len() == blocks_count(size as int, self.block_size as int),
                forall|k: int|
                    0 <= k < blocks@.len() ==> #[trigger] blocks@[k] == (BlockInfo {
                        offset: (k * self.block_size) as usize,
                        length: block_length(size as int, self.block_size as int, k) as usize,
                    }),
                forall|k: int|
                    0 <= k < blocks@.len() ==> 0 < (#[trigger] blocks@[k]).length
                        && blocks@[k].offset + blocks@[k].length <= size,
                out@.len() == j,
                forall|k: int|
                    0 <= k < j ==> (#[trigger] out@[k])@ == (MessageView::Request {
                        index: self.index,
                        begin: (k * self.block_size) as u32,
                        length: block_length(size as int, self.block_size as int, k) as u32,
                    }),
            decreases blocks@.len() - j,
        {
            let block = blocks[j];
            proof {
                lemma_block_bounds(size as int, self.block_size as int, j as int);
                assert(blocks@[j as int].offset + blocks@[j as int].length <= size);
            }
            out.push(
                Message::Request {
                    index: self.index,
                    begin: block.offset as u32,
                    length: block.length as u32,
                },
            );
            j += 1;
        }
        assert(message_views(out@) =~= requests(
            self@.index,
            self@.buffer.len() as int,
            self@.block_size as int,
        ));
        out
    }

    /// Whether the block `key` has been recorded.
    fn recorded(&self, key: (u32, u32)) -> (out: bool)
        ensures
            out == self@.blocks.contains(key),
    {
        let mut i: usize = 0;
        while i < self.collected.len()
            invariant
                i <= self.collected@.len(),
                forall|k: int| 0 <= k < i ==> self.collected@[k] != key,
            decreases self.collected@.len() - i,
        {
            let other = self.collected[i];
            if other.0 == key.0 && other.1 == key.1 {
                return true;
            }
            i += 1;
        }
        false
    }

    /// Takes a message from the peer: the session moves on as `step` says
    /// and the messages to send come back, or the session fails and stays
    /// as it was.
    pub fn on_message(&mut self, message: &Message) -> (res: Result<Vec<Message>, SessionError>)
        requires
            old(self).wf(),
        ensures
            final(self).wf(),
            match res {
                Ok(send) => step(old(self)@, message@) == Ok::<
                    (SessionView, Seq<MessageView>),
                    SessionError,
                >((final(self)@, message_views(send@))),
                Err(e) => step(old(self)@, message@) == Err::<
                    (SessionView, Seq<MessageView>),
                    SessionError,
                >(e) && final(self)@ == old(self)@,
            },
    {
        let violation = SessionError::ProtocolViolation {
            expected: self.state,
            got: message.kind(),
        };
        match message {
            Message::KeepAlive => {
                let send: Vec<Message> = Vec::new();
                assert(message_views(send@) =~= Seq::<MessageView>::empty());
                Ok(send)
            },
            Message::BitField { .. } => match self.state {
                State::WaitingForBitField => {
                    self.state = State::WaitingForUnchoke;
                    let mut send: Vec<Message> = Vec::new();
                    send.push(Message::Interested);
                    assert(message_views(send@) =~= seq![MessageView::Interested]);
                    Ok(send)
                },
                _ => Err(violation),
            },
            Message::Unchoke => match self.state {
                State::WaitingForUnchoke => {
                    let send = self.all_requests();
                    self.state = State::WaitingForPieceBlock;
                    Ok(send)
                },
                _ => Err(violation),
            },
            Message::Piece { index, begin, block } => match self.state {
                State::WaitingForPieceBlock => {
                    let size: usize = self.piece.len();
                    let length: usize = block.len();
                    if *index != self.index || length > size || *begin as usize > size - length {
                        return Err(violation);
                    }
                    let key = (*begin, length as u32);
                    let known = self.recorded(key);
                    if !known && length > size - self.total {
                        return Err(violation);
                    }
                    write_block(&mut self.piece, *begin as usize, block.as_slice());
                    if !known {
                        proof {
                            lemma_received_push(self.collected@, key);
                        }
                        self.collected.push(key);
                        self.total = self.total + length;
                    }
                    if self.total == size {
                        self.state = State::Done;
                    }
                    let send: Vec<Message> = Vec::new();
                    assert(message_views(send@) =~= Seq::<MessageView>::empty());
                    Ok(send)
                },
                _ => Err(violation),
            },
            _ => Err(violation),
        }
    }

    /// Hands out the piece once every block has arrived and the digest of
    /// the piece is the one that the metainfo gives for it.
    pub fn finish(self) -> (res: Result<Vec<u8>, SessionError>)
        requires
            self.wf(),
        ensures
            match res {
                Ok(piece) => {
                    &&& self@.state == State::Done
                    &&& piece@ == self@.buffer
                    &&& sha1_digest(piece@) == self@.expected
                },
                Err(e) => if self@.state != State::Done {
                    e == SessionError::Incomplete
                } else {
                    e == (SessionError::PieceHashMismatch { index: self@.index }) && sha1_digest(
                        self@.buffer,
                    ) != self@.expected
                },
            },
    {
        match self.state {
            State::Done => {},
            _ => {
                return Err(SessionError::Incomplete);
            },
        }
        let digest = hash(self.piece.as_slice());
        let mut i: usize = 0;
        while i < 20
            invariant
                i <= 20,
                self@.state == State::Done,
                digest@ == sha1_digest(self@.buffer),
                forall|k: int| 0 <= k < i ==> digest@[k] == self.expected@[k],
            decreases 20 - i,
        {
            if digest[i] != self.expected[i] {
                return Err(SessionError::PieceHashMismatch { index: self.index });
            }
            i += 1;
        }
        assert(digest@ =~= self.expected@);
        Ok(self.piece)
    }
}

/// A failed request over HTTP.
#[derive(Debug, Clone)]
pub struct HttpError {
    pub message: String,
}

/// What fetches the body behind a URL. The client asks its tracker through it.
pub trait HttpClient {
    /// The body of the answer to a GET request for `url`.
    fn get(&self, url: &str) -> Result<Vec<u8>, HttpError>;
}

/// A client: what it asks trackers through, and the size of the blocks it
/// asks peers for.
pub struct BtClient<T: HttpClient> {
    client: T,
    block_size: u32,
}

/// The block size of a client that was given none: 16 KiB.
pub const DEFAULT_BLOCK_SIZE: u32 = 16384;

impl<T: HttpClient> BtClient<T> {
    /// The size of the blocks that this client asks for.
    pub closed spec fn spec_block_size(&self) -> u32 {
        self.block_size
    }

    /// A client that asks for blocks of 16 KiB.
    pub fn with_client(client: T) -> (out: Self)
        ensures
            out.spec_block_size() == DEFAULT_BLOCK_SIZE,
    {
        Self { client, block_size: DEFAULT_BLOCK_SIZE }
    }

    /// A client that asks for blocks of `block_size` bytes.
    pub fn with_client_and_block_size(client: T, block_size: u32) -> (out: Self)
        ensures
            out.spec_block_size() == block_size,
    {
        Self { client, block_size }
    }

    /// The size of the blocks that this client asks for.
    pub fn block_size(&self) -> (out: u32)
        ensures
            out == self.spec_block_size(),
    {
        self.block_size
    }

    /// The announce URL for a torrent of which `left` bytes are still to
    /// come; nothing where the length of the torrent is not known yet.
    pub fn tracker_url(&self, announce_url: &str, info_hash: &[u8; 20], left: Option<usize>) -> (res:
        Result<String, UrlError>)
        ensures
            match res {
                Ok(url) => url@ == announce_request(
                    announce_url@,
                    info_hash@,
                    left.unwrap_or(0) as nat,
                ) && url_text(url@) is Some,
                Err(e) => e == UrlError::NotAUrl && url_text(
                    announce_request(announce_url@, info_hash@, left.unwrap_or(0) as nat),
                ) is None,
            },
    {
        let left = match left {
            Some(left) => left,
            None => 0,
        };
        tracker_url(announce_url, info_hash, left)
    }

    /// Asks the tracker behind `tracker_url` for peers: the peers that the
    /// body of its answer spells, or why there are none.
    pub fn get_peers(&self, tracker_url: &str) -> (res: Result<Vec<PeerAddr>, TrackerError>)
        ensures
            match res {
                Ok(peers) => exists|body: Seq<u8>| answered(body, Ok(peer_views(peers@))),
                Err(e) => e@ is HttpFailure || exists|body: Seq<u8>| answered(body, Err(e@)),
            },
    {
        match self.client.get(tracker_url) {
            Ok(body) => {
                peers_in(body.as_slice())
            },
            Err(_) => Err(TrackerError::HttpFailure),
        }
    }

    /// The session that collects piece `index` of `torrent`, or `None`
    /// where the torrent has no such piece.
    pub fn session(&self, torrent: &Torrent, index: u32) -> (out: Option<PieceSession>)
        requires
            torrent.info.wf(),
            self.spec_block_size() > 0,
        ensures
            match out {
                None => index >= torrent.info.spec_pieces_count(),
                Some(session) => {
                    &&& index < torrent.info.spec_pieces_count()
                    &&& session.wf()
                    &&& session@.state == State::WaitingForBitField
                    &&& session@.index == index
                    &&& session@.block_size == self.spec_block_size()
                    &&& session@.expected == torrent.info.pieces@[index as int]
                    &&& session@.buffer == Seq::new(
                        torrent.info.spec_piece_size(index as int) as nat,
                        |i: int| 0u8,
                    )
                    &&& session@.blocks == Seq::<(u32, u32)>::empty()
                },
            },
    {
        PieceSession::new(&torrent.info, index, self.block_size)
    }
}

/// Whether a tracker that answers with `body` gives `outcome`.
pub open spec fn answered(body: Seq<u8>, outcome: Result<Seq<PeerView>, TrackerErrorView>) -> bool {
    outcome == match parse_response(body) {
        Ok(response) => Ok::<Seq<PeerView>, TrackerErrorView>(response.peers),
        Err(e) => Err(e),
    }
}

/// The peers that the body of a tracker's answer spells.
pub fn peers_in(body: &[u8]) -> (res: Result<Vec<PeerAddr>, TrackerError>)
    ensures
        match res {
            Ok(peers) => answered(body@, Ok(peer_views(peers@))),
            Err(e) => answered(body@, Err(e@)),
        },
{
    match Response::from_bytes(body) {
        Ok(response) => Ok(response.peers.0),
        Err(e) => Err(e),
    }
}

/// The handshake that opens a connection for the torrent `info_hash`, or
/// `None` where the peer id is not 20 bytes long.
pub fn handshake_for(info_hash: [u8; 20], peer_id: &str, extension: Extension) -> (out: Option<
    [u8; 68],
>)
    ensures
        match out {
            Some(bytes) => peer_id.spec_bytes().len() == 20 && bytes@ == handshake_bytes(
                info_hash@,
                peer_id.spec_bytes(),
                extension,
            ),
            None => peer_id.spec_bytes().len() != 20,
        },
{
    let id = peer_id.as_bytes();
    if id.len() != 20 {
        return None;
    }
    let mut peer = [0u8; 20];
    let mut i: usize = 0;
    while i < 20
        invariant
            i <= 20,
            id@.len() == 20,
            forall|k: int| 0 <= k < i ==> peer@[k] == id@[k],
        decreases 20 - i,
    {
        peer[i] = id[i];
        i += 1;
    }
    assert(peer@ =~= id@);
    Some(Handshake::with_extension(info_hash, peer, extension).to_bytes())
}

/// The peer id in the handshake that a peer answered with.
pub fn peer_id_in(handshake: &[u8; 68]) -> (out: [u8; 20])
    ensures
        out@ == handshake@.subrange(48, 68),
{
    Handshake::from_bytes(handshake).peer_id
}

/// The payload after the first `n` pieces have been placed where they lie.
pub open spec fn placed_pieces(
    content: Seq<u8>,
    layout: Seq<PieceInfo>,
    pieces: Seq<Seq<u8>>,
    n: int,
) -> Seq<u8>
    decreases n,
{
    if n <= 0 {
        content
    } else {
        write_at(
            placed_pieces(content, layout, pieces, n - 1),
            layout[n - 1].offset as int,
            pieces[n - 1],
        )
    }
}

/// Byte strings one after the other, as one byte string.
pub open spec fn joined(pieces: Seq<Seq<u8>>) -> Seq<u8>
    decreases pieces.len(),
{
    if pieces.len() == 0 {
        seq![]
    } else {
        joined(pieces.drop_last()) + pieces.last()
    }
}

/// Pieces of the sizes that the geometry gives them, placed one after the
/// other where they lie, make the payload: the pieces in their order and
/// nothing else.
pub proof fn lemma_placed_pieces(info: Info, content: Seq<u8>, pieces: Seq<Seq<u8>>, n: int)
    requires
        info.wf(),
        content.len() == info.spec_total_len(),
        pieces.len() == info.spec_pieces_count(),
        forall|i: int|
            0 <= i < pieces.len() ==> (#[trigger] pieces[i]).len() == info.spec_piece_size(i),
        0 <= n <= pieces.len(),
    ensures
        ({
            let layout = Seq::new(pieces.len(), |i: int| info.spec_piece_info(i));
            let placed = placed_pieces(content, layout, pieces, n);
            &&& placed.len() == content.len()
            &&& joined(pieces.take(n)).len() <= content.len()
            &&& placed.take(joined(pieces.take(n)).len() as int) == joined(pieces.take(n))
            &&& n < pieces.len() ==> joined(pieces.take(n)).len() == n * info.piece_length
            &&& n == pieces.len() ==> placed == joined(pieces)
        }),
    decreases n,
{
    let layout = Seq::new(pieces.len(), |i: int| info.spec_piece_info(i));
    let count = info.spec_pieces_count();
    let length = info.piece_length as int;
    let total = info.spec_total_len();
    if n == 0 {
        assert(pieces.take(0) =~= Seq::<Seq<u8>>::empty());
        assert(0 * length == 0);
        if pieces.len() == 0 {
            assert(count * length == 0) by (nonlinear_arith)
                requires
                    count == 0,
            ;
            assert(content =~= joined(pieces));
        }
        assert(content.take(0) =~= joined(pieces.take(0)));
    } else {
        lemma_placed_pieces(info, content, pieces, n - 1);
        lemma_piece_bounds(length, count, total, n - 1);
        crate::geometry::lemma_mul_succ(n - 1, length);
        let before = placed_pieces(content, layout, pieces, n - 1);
        let done = joined(pieces.take(n - 1));
        let piece = pieces[n - 1];
        let at = layout[n - 1].offset as int;
        assert(at == (n - 1) * length);
        assert(pieces.take(n).drop_last() =~= pieces.take(n - 1));
        assert(pieces.take(n).last() == piece);
        let after = write_at(before, at, piece);
        assert(after.take(at + piece.len()) =~= done + piece);
        if n == pieces.len() {
            assert(pieces.take(n) =~= pieces);
            assert(after =~= joined(pieces));
        }
    }
}

/// Why a payload could not be put together.
#[derive(Debug, Clone, Copy, PartialEq, Eq)]
pub enum DownloadError {
    /// A piece does not have the size that the geometry gives it.
    WrongPieceSize { index: usize },
    /// Every piece has been placed already.
    NothingLeft,
}

/// A payload that is put together piece by piece, in the order of the pieces.
pub struct Download {
    file: Vec<u8>,
    pieces: Vec<PieceInfo>,
    next: usize,
}

impl Download {
    /// The payload so far: the pieces that were placed, and zeros behind them.
    pub closed spec fn content(&self) -> Seq<u8> {
        self.file@
    }

    /// Where each piece lies.
    pub closed spec fn layout(&self) -> Seq<PieceInfo> {
        self.pieces@
    }

    /// How many pieces have been placed.
    pub closed spec fn placed(&self) -> int {
        self.next as int
    }

    /// Whether the pieces lie inside the payload and the count of placed
    /// pieces is no more than there are pieces.
    pub closed spec fn wf(&self) -> bool {
        &&& self.next <= self.pieces@.len()
        &&& forall|i: int|
            0 <= i < self.pieces@.len() ==> (#[trigger] self.pieces@[i]).offset
                + self.pieces@[i].length <= self.file@.len()
    }

    /// An empty payload for the torrent of `info`: all zeros, no piece placed.
    pub fn new(info: &Info) -> (out: Download)
        requires
            info.wf(),
        ensures
            out.wf(),
            out.placed() == 0,
            out.content() == Seq::new(info.spec_total_len() as nat, |i: int| 0u8),
            out.layout().len() == info.spec_pieces_count(),
            forall|i: int|
                0 <= i < out.layout().len() ==> #[trigger] out.layout()[i] == info.spec_piece_info(
                    i,
                ),
    {
        let total = info.total_len();
        let pieces = info.pieces_info();
        let mut file: Vec<u8> = Vec::new();
        let mut i: usize = 0;
        while i < total
            invariant
                i <= total,
                file@.len() == i,
                forall|k: int| 0 <= k < i ==> file@[k] == 0u8,
            decreases total - i,
        {
            file.push(0u8);
            i += 1;
        }
        assert(file@ =~= Seq::new(info.spec_total_len() as nat, |i: int| 0u8));
        Download { file, pieces, next: 0 }
    }

    /// The piece to fetch next, or `None` when every piece has been placed.
    pub fn next_piece(&self) -> (out: Option<PieceInfo>)
        requires
            self.wf(),
        ensures
            match out {
                Some(piece) => self.placed() < self.layout().len() && piece
                    == self.layout()[self.placed()],
                None => self.placed() == self.layout().len(),
            },
    {
        if self.next < self.pieces.len() {
            Some(self.pieces[self.next])
        } else {
            None
        }
    }

    /// Places the bytes of the next piece where it lies. A piece of the
    /// wrong size changes nothing.
    pub fn place(&mut self, piece: &[u8]) -> (res: Result<(), DownloadError>)
        requires
            old(self).wf(),
        ensures
            final(self).wf(),
            final(self).layout() == old(self).layout(),
            match res {
                Ok(()) => {
                    let at = old(self).layout()[old(self).placed()];
                    &&& old(self).placed() < old(self).layout().len()
                    &&& piece@.len() == at.length
                    &&& final(self).placed() == old(self).placed() + 1
                    &&& final(self).content() == write_at(
                        old(self).content(),
                        at.offset as int,
                        piece@,
                    )
                },
                Err(e) => {
                    &&& final(self).placed() == old(self).placed()
                    &&& final(self).content() == old(self).content()
                    &&& if old(self).placed() == old(self).layout().len() {
                        e == DownloadError::NothingLeft
                    } else {
                        e == (DownloadError::WrongPieceSize { index: old(self).placed() as usize })
                            && piece@.len() != old(self).layout()[old(self).placed()].length
                    }
                },
            },
    {
        if self.next >= self.pieces.len() {
            return Err(DownloadError::NothingLeft);
        }
        let at = self.pieces[self.next];
        if piece.len() != at.length {
            return Err(DownloadError::WrongPieceSize { index: self.next });
        }
        write_block(&mut self.file, at.offset, piece);
        self.next = self.next + 1;
        Ok(())
    }

    /// The payload, once every piece has been placed; before that, nothing.
    pub fn finish(self) -> (out: Option<Vec<u8>>)
        requires
            self.wf(),
        ensures
            match out {
                Some(file) => self.placed() == self.layout().len() && file@ == self.content(),
                None => self.placed() < self.layout().len(),
            },
    {
        if self.next == self.pieces.len() {
            Some(self.file)
        } else {
            None
        }
    }
}

} // verus!
