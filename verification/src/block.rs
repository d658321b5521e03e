//! FITS block arithmetic: every header and data unit is a whole multiple of
//! `BLOCK_SIZE` bytes (FITS Standard 4.0 §3.3.2 "FITS blocks").

use vstd::prelude::*;

verus! {

/// The fixed FITS block size in bytes, per the standard.
pub const BLOCK_SIZE: usize = 2880;

/// The size, in bytes, of one 80-character card image.
pub const CARD_SIZE: usize = 80;

/// Cards per block (`BLOCK_SIZE / CARD_SIZE`).
pub const CARDS_PER_BLOCK: usize = 36;

/// Number of blocks a unit of `len` bytes occupies: `len / 2880` rounded up.
pub open spec fn spec_block_count(len: int) -> int {
    (len + 2879) / 2880
}

/// `len` rounded up to the next multiple of the block size.
pub open spec fn spec_padded_len(len: int) -> int {
    spec_block_count(len) * 2880
}

/// Number of whole blocks required to hold `len` bytes, rounding up.
pub fn block_count(len: u64) -> (n: u64)
    ensures
        n == spec_block_count(len as int),
        n * 2880 >= len,
        n * 2880 < len + 2880,
{
    let q = len / 2880;
    let n = if len % 2880 != 0 { q + 1 } else { q };
    assert(n == spec_block_count(len as int)) by (nonlinear_arith)
        requires q == len / 2880, n == (if len % 2880 != 0 { q + 1 } else { q as int }), len >= 0;
    assert(n * 2880 >= len && n * 2880 < len + 2880) by (nonlinear_arith)
        requires q == len / 2880, n == (if len % 2880 != 0 { q + 1 } else { q as int }), len >= 0;
    n
}

/// The padded size, in bytes, of a unit of length `len`: `len` rounded up
/// to the next multiple of [`BLOCK_SIZE`]. A zero-length unit stays zero.
pub fn padded_len(len: u64) -> (p: u64)
    requires
        spec_padded_len(len as int) <= u64::MAX,
    ensures
        p == spec_padded_len(len as int),
        p % 2880 == 0,
        len <= p < len + 2880,
{
    let n = block_count(len);
    let p = n * 2880;
    assert(p % 2880 == 0) by (nonlinear_arith) requires p == n * 2880;
    p
}

/// Number of trailing padding bytes needed to bring `len` up to a block
/// boundary. Zero when `len` is already a multiple of [`BLOCK_SIZE`].
pub fn padding_for(len: u64) -> (pad: u64)
    requires
        spec_padded_len(len as int) <= u64::MAX,
    ensures
        pad == spec_padded_len(len as int) - len,
        pad < 2880,
        (len + pad) % 2880 == 0,
        pad == 0 <==> len % 2880 == 0,
{
    let p = padded_len(len);
    let pad = p - len;
    assert(pad == 0 <==> len % 2880 == 0) by (nonlinear_arith)
        requires p % 2880 == 0, len <= p < len + 2880, pad == p - len;
    pad
}

/// True when `len` is already exactly a whole number of blocks (including
/// zero).
pub fn is_block_aligned(len: u64) -> (b: bool)
    ensures
        b == (len % 2880 == 0),
{
    len % 2880 == 0
}

/// Converts a byte offset to the (block index, byte-within-block) pair.
pub fn offset_to_block(offset: u64) -> (r: (u64, u64))
    ensures
        r.0 == offset / 2880,
        r.1 == offset % 2880,
        r.0 * 2880 + r.1 == offset,
        r.1 < 2880,
{
    let q = offset / 2880;
    let r = offset % 2880;
    assert(q * 2880 + r == offset) by (nonlinear_arith) requires q == offset / 2880, r == offset % 2880;
    (q, r)
}

} // verus!
