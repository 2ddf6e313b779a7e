//! Big-endian integers on the wire.

use vstd::prelude::*;

verus! {

/// The number that four bytes spell, most significant byte first.
pub open spec fn be_u32(b: Seq<u8>) -> int {
    b[0] * 16777216 + b[1] * 65536 + b[2] * 256 + b[3]
}

/// The four bytes that spell `x`, most significant byte first.
pub open spec fn u32_be(x: int) -> Seq<u8> {
    seq![
        (x / 16777216) as u8,
        ((x / 65536) % 256) as u8,
        ((x / 256) % 256) as u8,
        (x % 256) as u8,
    ]
}

/// The number that two bytes spell, most significant byte first.
pub open spec fn be_u16(b: Seq<u8>) -> int {
    b[0] * 256 + b[1]
}

/// Every `u32` is read back from its four bytes.
pub proof fn lemma_be_u32_of_u32_be(x: int)
    requires
        0 <= x <= u32::MAX,
    ensures
        u32_be(x).len() == 4,
        be_u32(u32_be(x)) == x,
{
}

/// Four bytes are written back from the number they spell.
pub proof fn lemma_u32_be_of_be_u32(b: Seq<u8>)
    requires
        b.len() == 4,
    ensures
        0 <= be_u32(b) <= u32::MAX,
        u32_be(be_u32(b)) == b,
{
    let b0 = b[0] as int;
    let b1 = b[1] as int;
    let b2 = b[2] as int;
    let b3 = b[3] as int;
    let x = b0 * 16777216 + b1 * 65536 + b2 * 256 + b3;
    assert(x / 16777216 == b0);
    assert((x / 65536) % 256 == b1) by {
        assert(x / 65536 == b0 * 256 + b1);
    }
    assert((x / 256) % 256 == b2) by {
        assert(x / 256 == b0 * 65536 + b1 * 256 + b2);
    }
    assert(x % 256 == b3);
    assert(u32_be(x) =~= b);
}

/// Writes `x` as four big-endian bytes.
pub fn u32_to_be(x: u32) -> (out: [u8; 4])
    ensures
        out@ == u32_be(x as int),
{
    let b0: u8 = (x / 16777216) as u8;
    let b1: u8 = ((x / 65536) % 256) as u8;
    let b2: u8 = ((x / 256) % 256) as u8;
    let b3: u8 = (x % 256) as u8;
    let out = [b0, b1, b2, b3];
    assert(out@ =~= u32_be(x as int));
    out
}

/// Reads the big-endian `u32` that starts at `at`.
pub fn u32_from_be(input: &[u8], at: usize) -> (x: u32)
    requires
        at + 4 <= input@.len(),
    ensures
        x == be_u32(input@.subrange(at as int, at + 4)),
{
    let b0: u32 = input[at] as u32;
    let b1: u32 = input[at + 1] as u32;
    let b2: u32 = input[at + 2] as u32;
    let b3: u32 = input[at + 3] as u32;
    b0 * 16777216 + b1 * 65536 + b2 * 256 + b3
}

/// Reads the big-endian `u16` that starts at `at`.
pub fn u16_from_be(input: &[u8], at: usize) -> (x: u16)
    requires
        at + 2 <= input@.len(),
    ensures
        x == be_u16(input@.subrange(at as int, at + 2)),
{
    let b0: u16 = input[at] as u16;
    let b1: u16 = input[at + 1] as u16;
    b0 * 256 + b1
}

} // verus!
