//! What has an info dictionary has a geometry: a metainfo, and a magnet
//! link whose info dictionary a peer has handed over.

use crate::geometry::{block_length, blocks_count, last_piece_size};
use crate::magnet_links::MagnetLink;
use crate::metainfo::identity_bytes;
use crate::sha1::sha1_digest;
use crate::torrent::{BlockInfo, Info, PieceInfo, Torrent};
use vstd::prelude::*;

verus! {

/// The geometry of what has an info dictionary.
pub trait TorrentInfo {
    /// The info dictionary.
    spec fn spec_info(&self) -> Info;

    /// The info dictionary.
    fn info(&self) -> (out: &Info)
        ensures
            *out == self.spec_info(),
    ;

    /// The length of the payload.
    fn total_len(&self) -> (n: usize)
        requires
            self.spec_info().wf(),
        ensures
            n == self.spec_info().spec_total_len(),
    {
        self.info().total_len()
    }

    /// The info-hash.
    fn info_hash(&self) -> (digest: [u8; 20])
        ensures
            digest@ == sha1_digest(identity_bytes(self.spec_info()@)),
    {
        self.info().info_hash()
    }

    /// The length of every piece but the last.
    fn piece_length(&self) -> (n: usize)
        ensures
            n == self.spec_info().piece_length,
    {
        self.info().piece_length()
    }

    /// How many pieces the payload is cut into.
    fn pieces_count(&self) -> (n: usize)
        ensures
            n == self.spec_info().spec_pieces_count(),
    {
        self.info().pieces_count()
    }

    /// The size of the last piece.
    fn last_piece_size(&self) -> (n: usize)
        requires
            self.spec_info().wf(),
        ensures
            n == last_piece_size(
                self.spec_info().piece_length as int,
                self.spec_info().spec_total_len(),
            ),
    {
        self.info().last_piece_size()
    }

    /// Where each block of the piece `piece_index` lies, for blocks of
    /// `block_size` bytes; `None` where there is no such piece.
    fn blocks_info(&self, piece_index: usize, block_size: usize) -> (out: Option<Vec<BlockInfo>>)
        requires
            self.spec_info().wf(),
            block_size > 0,
        ensures
            match out {
                None => piece_index >= self.spec_info().spec_pieces_count(),
                Some(blocks) => {
                    let size = self.spec_info().spec_piece_size(piece_index as int);
                    &&& piece_index < self.spec_info().spec_pieces_count()
                    &&& blocks@.len() == blocks_count(size, block_size as int)
                    &&& forall|j: int|
                        0 <= j < blocks@.len() ==> #[trigger] blocks@[j] == (BlockInfo {
                            offset: (j * block_size) as usize,
                            length: block_length(size, block_size as int, j) as usize,
                        })
                },
            },
    {
        self.info().blocks_info(piece_index, block_size)
    }

    /// Where each piece lies, in the order of the pieces.
    fn pieces_info(&self) -> (out: Vec<PieceInfo>)
        requires
            self.spec_info().wf(),
        ensures
            out@.len() == self.spec_info().spec_pieces_count(),
            forall|i: int|
                0 <= i < out@.len() ==> #[trigger] out@[i] == self.spec_info().spec_piece_info(i),
    {
        self.info().pieces_info()
    }
}

impl TorrentInfo for Torrent {
    open spec fn spec_info(&self) -> Info {
        self.info
    }

    fn info(&self) -> (out: &Info) {
        &self.info
    }
}

impl TorrentInfo for (MagnetLink, Info) {
    open spec fn spec_info(&self) -> Info {
        self.1
    }

    fn info(&self) -> (out: &Info) {
        &self.1
    }
}

} // verus!
