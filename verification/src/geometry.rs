//! How a payload is cut into pieces, and a piece into blocks.

use vstd::prelude::*;

verus! {

/// Whether `count` pieces of `piece_length` bytes are the pieces of a
/// payload of `total` bytes: the pieces cover the payload, and the last
/// piece is not empty.
pub open spec fn covers(piece_length: int, count: int, total: int) -> bool {
    &&& piece_length > 0
    &&& count >= 0
    &&& total >= 0
    &&& total <= count * piece_length < total + piece_length
}

/// The size of piece `i`: the piece length, but for the last piece what is
/// left of the payload.
pub open spec fn piece_size(piece_length: int, count: int, total: int, i: int) -> int {
    if i < count - 1 {
        piece_length
    } else {
        total - (count - 1) * piece_length
    }
}

/// Where piece `i` starts in the payload.
pub open spec fn piece_offset(piece_length: int, i: int) -> int {
    i * piece_length
}

/// What is left over when the payload is cut into whole pieces, or a whole
/// piece where nothing is left over.
pub open spec fn last_piece_size(piece_length: int, total: int) -> int {
    if total % piece_length == 0 {
        piece_length
    } else {
        total % piece_length
    }
}

/// The sizes of the first `n` pieces, added up.
pub open spec fn pieces_sum(piece_length: int, count: int, total: int, n: int) -> int
    decreases n,
{
    if n <= 0 {
        0
    } else {
        pieces_sum(piece_length, count, total, n - 1) + piece_size(
            piece_length,
            count,
            total,
            n - 1,
        )
    }
}

/// How many blocks of `block_size` bytes a piece of `size` bytes is cut into.
pub open spec fn blocks_count(size: int, block_size: int) -> int {
    (size + block_size - 1) / block_size
}

/// The length of block `j` of a piece of `size` bytes: the block size, but
/// for the last block what is left of the piece.
pub open spec fn block_length(size: int, block_size: int, j: int) -> int {
    if j < blocks_count(size, block_size) - 1 {
        block_size
    } else {
        size - (blocks_count(size, block_size) - 1) * block_size
    }
}

/// The lengths of the first `n` blocks, added up.
pub open spec fn blocks_sum(size: int, block_size: int, n: int) -> int
    decreases n,
{
    if n <= 0 {
        0
    } else {
        blocks_sum(size, block_size, n - 1) + block_length(size, block_size, n - 1)
    }
}

/// The product of two numbers that are not negative grows with each.
pub proof fn lemma_mul_le(a: int, b: int, c: int)
    by (nonlinear_arith)
    requires
        0 <= a <= b,
        0 <= c,
    ensures
        a * c <= b * c,
{
}

/// One more times `c` is `c` more.
pub proof fn lemma_mul_succ(a: int, c: int)
    by (nonlinear_arith)
    ensures
        (a + 1) * c == a * c + c,
        (a - 1) * c == a * c - c,
{
}

/// A number that lies in the `q`-th interval of length `d` has the quotient `q`.
pub proof fn lemma_div_is(x: int, d: int, q: int)
    by (nonlinear_arith)
    requires
        d > 0,
        q * d <= x < q * d + d,
    ensures
        x / d == q,
        x % d == x - q * d,
{
}

/// Every piece of a payload that the pieces cover is between one byte and
/// the piece length, it lies inside the payload, and the last piece is what
/// is left over when the payload is cut into whole pieces.
pub proof fn lemma_piece_bounds(piece_length: int, count: int, total: int, i: int)
    requires
        covers(piece_length, count, total),
        0 <= i < count,
    ensures
        0 < piece_size(piece_length, count, total, i) <= piece_length,
        piece_offset(piece_length, i) + piece_size(piece_length, count, total, i) <= total,
        piece_offset(piece_length, i) >= 0,
        piece_size(piece_length, count, total, count - 1) == last_piece_size(piece_length, total),
        i == count - 1 ==> piece_offset(piece_length, i) + piece_size(
            piece_length,
            count,
            total,
            i,
        ) == total,
{
    lemma_mul_succ(count, piece_length);
    lemma_mul_le(i, count - 1, piece_length);
    lemma_mul_le(0, i, piece_length);
    lemma_mul_succ(i, piece_length);
    if i < count - 1 {
        lemma_mul_le(i + 1, count - 1, piece_length);
    }
    let last = total - (count - 1) * piece_length;
    if last == piece_length {
        lemma_div_is(total, piece_length, count);
    } else {
        lemma_div_is(total, piece_length, count - 1);
    }
}

/// The pieces add up to the payload.
pub proof fn lemma_pieces_sum(piece_length: int, count: int, total: int)
    requires
        covers(piece_length, count, total),
    ensures
        pieces_sum(piece_length, count, total, count) == total,
{
    if count == 0 {
        assert(count * piece_length == 0) by (nonlinear_arith)
            requires
                count == 0,
        ;
    } else {
        lemma_pieces_sum_whole(piece_length, count, total, count - 1);
    }
}

/// The first `n` pieces, none of them the last, add up to `n` piece lengths.
proof fn lemma_pieces_sum_whole(piece_length: int, count: int, total: int, n: int)
    requires
        0 <= n <= count - 1,
    ensures
        pieces_sum(piece_length, count, total, n) == n * piece_length,
    decreases n,
{
    if n > 0 {
        lemma_pieces_sum_whole(piece_length, count, total, n - 1);
        lemma_mul_succ(n - 1, piece_length);
    } else {
        assert(0 * piece_length == 0);
    }
}

/// A piece of at least one byte has at least one block; every block is
/// between one byte and the block size and lies inside the piece.
pub proof fn lemma_block_bounds(size: int, block_size: int, j: int)
    requires
        size > 0,
        block_size > 0,
        0 <= j < blocks_count(size, block_size),
    ensures
        blocks_count(size, block_size) >= 1,
        0 < block_length(size, block_size, j) <= block_size,
        j * block_size >= 0,
        j * block_size + block_length(size, block_size, j) <= size,
{
    lemma_blocks_cover(size, block_size);
    let count = blocks_count(size, block_size);
    lemma_mul_succ(count, block_size);
    lemma_mul_le(j, count - 1, block_size);
    lemma_mul_le(0, j, block_size);
    lemma_mul_succ(j, block_size);
    if j < count - 1 {
        lemma_mul_le(j + 1, count - 1, block_size);
    }
}

/// The blocks of a piece cover it as the pieces cover a payload.
pub proof fn lemma_blocks_cover(size: int, block_size: int)
    requires
        size >= 0,
        block_size > 0,
    ensures
        covers(block_size, blocks_count(size, block_size), size),
{
    let x = size + block_size - 1;
    let q = x / block_size;
    assert(q * block_size <= x < q * block_size + block_size && q >= 0) by (nonlinear_arith)
        requires
            q == x / block_size,
            block_size > 0,
            x >= 0,
    ;
}

/// The blocks of a piece add up to the piece.
pub proof fn lemma_blocks_sum(size: int, block_size: int)
    requires
        size >= 0,
        block_size > 0,
    ensures
        blocks_sum(size, block_size, blocks_count(size, block_size)) == size,
{
    lemma_blocks_cover(size, block_size);
    let count = blocks_count(size, block_size);
    lemma_blocks_sum_is_pieces_sum(size, block_size, count);
    lemma_pieces_sum(block_size, count, size);
}

/// Blocks are to a piece what pieces are to a payload.
proof fn lemma_blocks_sum_is_pieces_sum(size: int, block_size: int, n: int)
    ensures
        blocks_sum(size, block_size, n) == pieces_sum(
            block_size,
            blocks_count(size, block_size),
            size,
            n,
        ),
    decreases n,
{
    if n > 0 {
        lemma_blocks_sum_is_pieces_sum(size, block_size, n - 1);
    }
}

} // verus!
