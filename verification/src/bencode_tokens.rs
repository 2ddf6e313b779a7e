//! Writing the two leaf tokens of bencode.

use crate::bencode_spec::{bytes_token, number_token};
use crate::decimal::{dec_text, decimal_text};
use vstd::prelude::*;

verus! {

/// Appends the token of the byte string `payload`.
pub fn push_bytes_token(out: &mut Vec<u8>, payload: &[u8])
    ensures
        final(out)@ == old(out)@ + bytes_token(payload@),
{
    let ghost before = out@;
    let digits = decimal_text(payload.len() as u64);
    out.extend_from_slice(digits.as_slice());
    out.push(58u8);
    out.extend_from_slice(payload);
    assert(out@ =~= before + bytes_token(payload@));
}

/// Appends the token of the integer `n`.
pub fn push_number_token(out: &mut Vec<u8>, n: u64)
    ensures
        final(out)@ == old(out)@ + number_token(dec_text(n as nat)),
{
    let ghost before = out@;
    let digits = decimal_text(n);
    out.push(105u8);
    out.extend_from_slice(digits.as_slice());
    out.push(101u8);
    assert(out@ =~= before + number_token(dec_text(n as nat)));
}

} // verus!
