//! The metainfo of a torrent, and the geometry of its pieces and blocks.

use crate::geometry::{
    block_length, blocks_count, blocks_sum, covers, last_piece_size, lemma_block_bounds,
    lemma_blocks_sum, lemma_div_is, lemma_mul_succ, lemma_piece_bounds, lemma_pieces_sum,
    piece_offset, piece_size, pieces_sum,
};
use crate::hashes::Hashes;
use vstd::prelude::*;

verus! {

/// One file of a torrent of several files.
#[derive(Debug, Clone, PartialEq, Eq)]
pub struct File {
    pub length: usize,
    pub path: Vec<String>,
}

/// How the payload is laid out: one file, or several one after the other.
#[derive(Debug, Clone, PartialEq, Eq)]
pub enum Keys {
    SingleFile { length: usize },
    MultiFile { files: Vec<File> },
}

/// The info dictionary of a torrent.
#[derive(Debug, Clone)]
pub struct Info {
    pub name: String,
    pub piece_length: u32,
    pub pieces: Hashes,
    pub keys: Keys,
    /// The bytes of the info dictionary as they stood in the metainfo that
    /// was parsed; `None` for an info dictionary that was put together by hand.
    pub raw: Option<Vec<u8>>,
}

/// The metainfo of a torrent.
#[derive(Debug, Clone)]
pub struct Torrent {
    pub announce: String,
    pub info: Info,
}

/// Where a piece lies in the payload.
#[derive(Debug, Clone, Copy, PartialEq, Eq)]
pub struct PieceInfo {
    pub index: usize,
    pub offset: usize,
    pub length: usize,
}

/// Where a block lies in its piece.
#[derive(Debug, Clone, Copy, PartialEq, Eq)]
pub struct BlockInfo {
    pub offset: usize,
    pub length: usize,
}

/// One file of a torrent as a value.
pub struct FileView {
    pub length: usize,
    pub path: Seq<Seq<char>>,
}

/// The layout of a payload as a value.
pub enum KeysView {
    SingleFile { length: usize },
    MultiFile { files: Seq<FileView> },
}

/// An info dictionary as a value.
pub struct InfoView {
    pub name: Seq<char>,
    pub piece_length: u32,
    pub pieces: Seq<Seq<u8>>,
    pub keys: KeysView,
    pub raw: Option<Seq<u8>>,
}

/// A metainfo as a value.
pub struct TorrentView {
    pub announce: Seq<char>,
    pub info: InfoView,
}

/// The segments of a path as values.
pub open spec fn path_view(path: Seq<String>) -> Seq<Seq<char>> {
    Seq::new(path.len(), |i: int| path[i]@)
}

/// Files as values.
pub open spec fn file_views(files: Seq<File>) -> Seq<FileView> {
    Seq::new(files.len(), |i: int| files[i]@)
}

impl View for File {
    type V = FileView;

    open spec fn view(&self) -> FileView {
        FileView { length: self.length, path: path_view(self.path@) }
    }
}

impl View for Keys {
    type V = KeysView;

    open spec fn view(&self) -> KeysView {
        match self {
            Keys::SingleFile { length } => KeysView::SingleFile { length: *length },
            Keys::MultiFile { files } => KeysView::MultiFile { files: file_views(files@) },
        }
    }
}

impl View for Info {
    type V = InfoView;

    open spec fn view(&self) -> InfoView {
        InfoView {
            name: self.name@,
            piece_length: self.piece_length,
            pieces: self.pieces@,
            keys: self.keys@,
            raw: match self.raw {
                Some(raw) => Some(raw@),
                None => None,
            },
        }
    }
}

impl View for Torrent {
    type V = TorrentView;

    open spec fn view(&self) -> TorrentView {
        TorrentView { announce: self.announce@, info: self.info@ }
    }
}

/// The lengths of files as values, added up.
pub open spec fn lengths_total(files: Seq<FileView>) -> int
    decreases files.len(),
{
    if files.len() == 0 {
        0
    } else {
        lengths_total(files.drop_last()) + files.last().length
    }
}

/// The length of the payload that a layout tells.
pub open spec fn keys_total(keys: KeysView) -> int {
    match keys {
        KeysView::SingleFile { length } => length as int,
        KeysView::MultiFile { files } => lengths_total(files),
    }
}

/// Files and their values add up to the same length.
pub proof fn lemma_lengths_total(files: Seq<File>)
    ensures
        lengths_total(file_views(files)) == files_total(files),
    decreases files.len(),
{
    if files.len() > 0 {
        lemma_lengths_total(files.drop_last());
        assert(file_views(files).drop_last() =~= file_views(files.drop_last()));
    }
}

/// The lengths of files, added up.
pub open spec fn files_total(files: Seq<File>) -> int
    decreases files.len(),
{
    if files.len() == 0 {
        0
    } else {
        files_total(files.drop_last()) + files.last().length
    }
}

/// The lengths of some of the files are no more than those of all of them.
pub proof fn lemma_files_total_grows(files: Seq<File>, i: int, j: int)
    requires
        0 <= i <= j <= files.len(),
    ensures
        0 <= files_total(files.take(i)) <= files_total(files.take(j)),
    decreases j,
{
    if j == 0 {
        assert(files.take(0) =~= Seq::<File>::empty());
    } else if i == j {
        lemma_files_total_grows(files, i - 1, j - 1);
        assert(files.take(j).drop_last() =~= files.take(j - 1));
    } else {
        lemma_files_total_grows(files, i, j - 1);
        assert(files.take(j).drop_last() =~= files.take(j - 1));
    }
}

/// Where each block of a piece of `size` bytes lies, for blocks of
/// `block_size` bytes.
pub fn blocks_of(size: usize, block_size: usize) -> (out: Vec<BlockInfo>)
    requires
        size > 0,
        block_size > 0,
    ensures
        out@.len() == blocks_count(size as int, block_size as int),
        forall|j: int|
            0 <= j < out@.len() ==> #[trigger] out@[j] == (BlockInfo {
                offset: (j * block_size) as usize,
                length: block_length(size as int, block_size as int, j) as usize,
            }),
        forall|j: int|
            0 <= j < out@.len() ==> 0 < (#[trigger] out@[j]).length && out@[j].offset
                + out@[j].length <= size,
{
    let whole: usize = size / block_size;
    let rest: usize = size % block_size;
    proof {
        assert(size == whole * block_size + rest && whole <= whole * block_size)
            by (nonlinear_arith)
            requires
                whole == size / block_size,
                rest == size % block_size,
                block_size > 0,
        ;
    }
    let count: usize = if rest == 0 {
        whole
    } else {
        whole + 1
    };
    proof {
        if rest == 0 {
            lemma_div_is(size + block_size - 1, block_size as int, whole as int);
        } else {
            lemma_mul_succ(whole as int, block_size as int);
            lemma_div_is(size + block_size - 1, block_size as int, whole + 1);
        }
        assert(count == blocks_count(size as int, block_size as int));
    }
    let mut out: Vec<BlockInfo> = Vec::new();
    let mut offset: usize = 0;
    let mut j: usize = 0;
    assert(0 * block_size == 0);
    while j < count
        invariant
            j <= count,
            size > 0,
            block_size > 0,
            count == blocks_count(size as int, block_size as int),
            j < count ==> offset == j * block_size,
            out@.len() == j,
            forall|k: int|
                0 <= k < j ==> #[trigger] out@[k] == (BlockInfo {
                    offset: (k * block_size) as usize,
                    length: block_length(size as int, block_size as int, k) as usize,
                }),
            forall|k: int|
                0 <= k < j ==> 0 < (#[trigger] out@[k]).length && out@[k].offset
                    + out@[k].length <= size,
        decreases count - j,
    {
        proof {
            lemma_block_bounds(size as int, block_size as int, j as int);
            lemma_mul_succ(j as int, block_size as int);
        }
        let length: usize = if j == count - 1 {
            size - offset
        } else {
            block_size
        };
        out.push(BlockInfo { offset, length });
        if j < count - 1 {
            offset = offset + block_size;
        }
        j += 1;
    }
    out
}

impl Info {
    /// The length of the payload.
    pub open spec fn spec_total_len(&self) -> int {
        match self.keys {
            Keys::SingleFile { length } => length as int,
            Keys::MultiFile { files } => files_total(files@),
        }
    }

    /// How many pieces the payload is cut into.
    pub open spec fn spec_pieces_count(&self) -> int {
        self.pieces@.len() as int
    }

    /// Whether the piece length is positive, the pieces cover the payload
    /// and the last piece is not empty, and the payload is no longer than
    /// an address can tell.
    pub open spec fn wf(&self) -> bool {
        &&& covers(self.piece_length as int, self.spec_pieces_count(), self.spec_total_len())
        &&& self.spec_total_len() <= usize::MAX
    }

    /// The size of piece `i`.
    pub open spec fn spec_piece_size(&self, i: int) -> int {
        piece_size(self.piece_length as int, self.spec_pieces_count(), self.spec_total_len(), i)
    }

    /// Where piece `i` lies.
    pub open spec fn spec_piece_info(&self, i: int) -> PieceInfo {
        PieceInfo {
            index: i as usize,
            offset: piece_offset(self.piece_length as int, i) as usize,
            length: self.spec_piece_size(i) as usize,
        }
    }

    /// The length of the payload.
    pub fn total_len(&self) -> (n: usize)
        requires
            self.wf(),
        ensures
            n == self.spec_total_len(),
    {
        match &self.keys {
            Keys::SingleFile { length } => *length,
            Keys::MultiFile { files } => {
                let mut sum: usize = 0;
                let mut i: usize = 0;
                assert(files@.take(0) =~= Seq::<File>::empty());
                while i < files.len()
                    invariant
                        i <= files@.len(),
                        sum == files_total(files@.take(i as int)),
                        files_total(files@) <= usize::MAX,
                    decreases files@.len() - i,
                {
                    proof {
                        lemma_files_total_grows(files@, i + 1, files@.len() as int);
                        assert(files@.take(files@.len() as int) =~= files@);
                        assert(files@.take(i + 1).drop_last() =~= files@.take(i as int));
                    }
                    sum = sum + files[i].length;
                    i += 1;
                }
                assert(files@.take(i as int) =~= files@);
                sum
            },
        }
    }

    /// The length of every piece but the last.
    pub fn piece_length(&self) -> (n: usize)
        ensures
            n == self.piece_length,
    {
        self.piece_length as usize
    }

    /// How many pieces the payload is cut into.
    pub fn pieces_count(&self) -> (n: usize)
        ensures
            n == self.spec_pieces_count(),
    {
        self.pieces.len()
    }

    /// What is left over when the payload is cut into whole pieces, or the
    /// piece length where nothing is left over: the size of the last piece.
    pub fn last_piece_size(&self) -> (n: usize)
        requires
            self.wf(),
        ensures
            n == last_piece_size(self.piece_length as int, self.spec_total_len()),
            self.spec_pieces_count() > 0 ==> n == self.spec_piece_size(
                self.spec_pieces_count() - 1,
            ),
    {
        proof {
            if self.spec_pieces_count() > 0 {
                lemma_piece_bounds(
                    self.piece_length as int,
                    self.spec_pieces_count(),
                    self.spec_total_len(),
                    0,
                );
            }
        }
        let rest = self.total_len() % self.piece_length();
        if rest == 0 {
            self.piece_length()
        } else {
            rest
        }
    }

    /// Where each piece lies, in the order of the pieces.
    pub fn pieces_info(&self) -> (out: Vec<PieceInfo>)
        requires
            self.wf(),
        ensures
            out@.len() == self.spec_pieces_count(),
            forall|i: int| 0 <= i < out@.len() ==> #[trigger] out@[i] == self.spec_piece_info(i),
            forall|i: int|
                0 <= i < out@.len() ==> (#[trigger] out@[i]).offset + out@[i].length
                    <= self.spec_total_len(),
    {
        let count = self.pieces_count();
        let piece_length = self.piece_length();
        let last = self.last_piece_size();
        let total = self.total_len();
        let mut out: Vec<PieceInfo> = Vec::new();
        let mut offset: usize = 0;
        let mut i: usize = 0;
        assert(0 * piece_length == 0);
        while i < count
            invariant
                i <= count,
                count == self.spec_pieces_count(),
                piece_length == self.piece_length,
                total == self.spec_total_len(),
                self.wf(),
                count > 0 ==> last == self.spec_piece_size(count - 1),
                i < count ==> offset == i * piece_length,
                out@.len() == i,
                forall|k: int| 0 <= k < i ==> #[trigger] out@[k] == self.spec_piece_info(k),
                forall|k: int|
                    0 <= k < i ==> (#[trigger] out@[k]).offset + out@[k].length <= total,
            decreases count - i,
        {
            proof {
                lemma_piece_bounds(piece_length as int, count as int, total as int, i as int);
                lemma_mul_succ(i as int, piece_length as int);
            }
            let length = if i == count - 1 {
                last
            } else {
                piece_length
            };
            out.push(PieceInfo { index: i, offset, length });
            if i < count - 1 {
                offset = offset + piece_length;
            }
            i += 1;
        }
        out
    }

    /// Where each block of the piece `piece_index` lies, for blocks of
    /// `block_size` bytes; `None` where there is no such piece.
    pub fn blocks_info(&self, piece_index: usize, block_size: usize) -> (out: Option<
        Vec<BlockInfo>,
    >)
        requires
            self.wf(),
            block_size > 0,
        ensures
            match out {
                None => piece_index >= self.spec_pieces_count(),
                Some(blocks) => {
                    let size = self.spec_piece_size(piece_index as int);
                    &&& piece_index < self.spec_pieces_count()
                    &&& blocks@.len() == blocks_count(size, block_size as int)
                    &&& forall|j: int|
                        0 <= j < blocks@.len() ==> #[trigger] blocks@[j] == (BlockInfo {
                            offset: (j * block_size) as usize,
                            length: block_length(size, block_size as int, j) as usize,
                        })
                    &&& forall|j: int|
                        0 <= j < blocks@.len() ==> 0 < (#[trigger] blocks@[j]).length
                            && blocks@[j].offset + blocks@[j].length <= size
                },
            },
    {
        let pieces = self.pieces_info();
        if piece_index >= pieces.len() {
            return None;
        }
        let size: usize = pieces[piece_index].length;
        proof {
            lemma_piece_bounds(
                self.piece_length as int,
                self.spec_pieces_count(),
                self.spec_total_len(),
                piece_index as int,
            );
            assert(pieces@[piece_index as int] == self.spec_piece_info(piece_index as int));
        }
        Some(blocks_of(size, block_size))
    }
}

/// The pieces of a torrent add up to its payload, and the blocks of each
/// piece add up to the piece, whatever the size of the blocks.
pub proof fn lemma_geometry_adds_up(info: Info, block_size: int)
    requires
        info.wf(),
        block_size > 0,
    ensures
        pieces_sum(
            info.piece_length as int,
            info.spec_pieces_count(),
            info.spec_total_len(),
            info.spec_pieces_count(),
        ) == info.spec_total_len(),
        forall|i: int|
            0 <= i < info.spec_pieces_count() ==> blocks_sum(
                #[trigger] info.spec_piece_size(i),
                block_size,
                blocks_count(info.spec_piece_size(i), block_size),
            ) == info.spec_piece_size(i),
{
    lemma_pieces_sum(info.piece_length as int, info.spec_pieces_count(), info.spec_total_len());
    assert forall|i: int| 0 <= i < info.spec_pieces_count() implies blocks_sum(
        #[trigger] info.spec_piece_size(i),
        block_size,
        blocks_count(info.spec_piece_size(i), block_size),
    ) == info.spec_piece_size(i) by {
        lemma_piece_bounds(
            info.piece_length as int,
            info.spec_pieces_count(),
            info.spec_total_len(),
            i,
        );
        lemma_blocks_sum(info.spec_piece_size(i), block_size);
    }
}

impl Torrent {
    /// The length of the payload.
    pub fn total_len(&self) -> (n: usize)
        requires
            self.info.wf(),
        ensures
            n == self.info.spec_total_len(),
    {
        self.info.total_len()
    }

    /// The length of every piece but the last.
    pub fn piece_length(&self) -> (n: usize)
        ensures
            n == self.info.piece_length,
    {
        self.info.piece_length()
    }

    /// How many pieces the payload is cut into.
    pub fn pieces_count(&self) -> (n: usize)
        ensures
            n == self.info.spec_pieces_count(),
    {
        self.info.pieces_count()
    }

    /// The size of the last piece.
    pub fn last_piece_size(&self) -> (n: usize)
        requires
            self.info.wf(),
        ensures
            n == last_piece_size(self.info.piece_length as int, self.info.spec_total_len()),
            self.info.spec_pieces_count() > 0 ==> n == self.info.spec_piece_size(
                self.info.spec_pieces_count() - 1,
            ),
    {
        self.info.last_piece_size()
    }

    /// Where each piece lies, in the order of the pieces.
    pub fn pieces_info(&self) -> (out: Vec<PieceInfo>)
        requires
            self.info.wf(),
        ensures
            out@.len() == self.info.spec_pieces_count(),
            forall|i: int|
                0 <= i < out@.len() ==> #[trigger] out@[i] == self.info.spec_piece_info(i),
            forall|i: int|
                0 <= i < out@.len() ==> (#[trigger] out@[i]).offset + out@[i].length
                    <= self.info.spec_total_len(),
    {
        self.info.pieces_info()
    }

    /// Where each block of the piece `piece_index` lies, for blocks of
    /// `block_size` bytes; `None` where there is no such piece.
    pub fn blocks_info(&self, piece_index: usize, block_size: usize) -> (out: Option<
        Vec<BlockInfo>,
    >)
        requires
            self.info.wf(),
            block_size > 0,
        ensures
            match out {
                None => piece_index >= self.info.spec_pieces_count(),
                Some(blocks) => {
                    let size = self.info.spec_piece_size(piece_index as int);
                    &&& piece_index < self.info.spec_pieces_count()
                    &&& blocks@.len() == blocks_count(size, block_size as int)
                    &&& forall|j: int|
                        0 <= j < blocks@.len() ==> #[trigger] blocks@[j] == (BlockInfo {
                            offset: (j * block_size) as usize,
                            length: block_length(size, block_size as int, j) as usize,
                        })
                    &&& forall|j: int|
                        0 <= j < blocks@.len() ==> 0 < (#[trigger] blocks@[j]).length
                            && blocks@[j].offset + blocks@[j].length <= size
                },
            },
    {
        self.info.blocks_info(piece_index, block_size)
    }
}

} // verus!
