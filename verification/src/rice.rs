//! `RICE_1` tile compression (the cfitsio `fits_rdecomp`/`fits_rcomp`
//! scheme). A tile is the first pixel value verbatim (`bytepix` big-endian
//! bytes) followed by Rice-coded successive differences, in blocks of
//! `blocksize` pixels that each begin with an `fsbits`-wide split parameter.
//! Three block modes: all-zero differences, raw `bbits`-wide values, and the
//! unary-quotient + `fs`-bit-remainder Rice code. Differences are
//! zigzag-mapped to non-negative integers.

use vstd::prelude::*;
use crate::error::{FitsError, is_compression_err};
use crate::text::{dec, push_str, push_u64, string_from};

verus! {

// ---------------------------------------------------------------------------
// The bit stream
// ---------------------------------------------------------------------------

/// Bit `p` of `s`, most significant bit of each byte first.
pub open spec fn sbit(s: Seq<u8>, p: int) -> u8 {
    (s[p / 8] >> ((7 - p % 8) as u8)) & 1u8
}

/// The `n` bits of `s` starting at bit `p`, as an unsigned integer
/// (first bit most significant).
pub open spec fn bits_val(s: Seq<u8>, p: int, n: int) -> int
    decreases n,
{
    if n <= 0 {
        0
    } else {
        bits_val(s, p, n - 1) * 2 + sbit(s, p + n - 1)
    }
}

/// The longest run of unary zeros the decoder accepts before a `1`.
pub const MAX_UNARY_ZEROS: u32 = 1000000;

/// Length of the run of zero bits starting at bit `p + k`, counted from
/// `k`, up to the terminating `1` bit. `None` when the stream ends first or
/// the run grows past [`MAX_UNARY_ZEROS`].
pub open spec fn zeros_from(s: Seq<u8>, p: int, k: int) -> Option<int>
    decreases 8 * s.len() - p - k,
{
    if p < 0 || k < 0 || p + k >= 8 * s.len() {
        None
    } else if sbit(s, p + k) == 1 {
        Some(k)
    } else if k + 1 > MAX_UNARY_ZEROS {
        None
    } else {
        zeros_from(s, p, k + 1)
    }
}

/// `(fsbits, fsmax)` for a pixel width of `bytepix` bytes.
pub open spec fn rice_params(bytepix: int) -> Option<(int, int)> {
    if bytepix == 1 {
        Some((3, 6))
    } else if bytepix == 2 {
        Some((4, 14))
    } else if bytepix == 4 {
        Some((5, 25))
    } else {
        None
    }
}

pub open spec fn spec_width_mask(bytepix: int) -> u64 {
    if bytepix == 1 {
        0xFFu64
    } else if bytepix == 2 {
        0xFFFFu64
    } else if bytepix == 4 {
        0xFFFF_FFFFu64
    } else {
        u64::MAX
    }
}

/// Undoes the zigzag mapping of `diff` and adds it to `lastpix`, wrapping
/// at the pixel width.
pub open spec fn spec_apply_diff(lastpix: u64, diff: u64, mask: u64) -> u64 {
    let signed_diff = if diff & 1u64 != 0u64 { (!(diff >> 1u64)) & mask } else { (diff >> 1u64) & mask };
    (lastpix.wrapping_add(signed_diff)) & mask
}

/// The raw `bytepix`-wide value as its `ZBITPIX` integer: width 1 is
/// unsigned; widths 2 and 4 are two's complement.
pub open spec fn spec_sign_extend(v: u64, bytepix: int) -> i64 {
    if bytepix == 1 {
        (v & 0xFFu64) as i64
    } else if bytepix == 2 {
        v as u16 as i16 as i64
    } else if bytepix == 4 {
        v as u32 as i32 as i64
    } else {
        v as i64
    }
}

/// Decoder state between pixels: bit position, last pixel, values so far.
pub type RiceState = (int, u64, Seq<i64>);

/// One pixel of a Rice-coded block with split parameter `fs`.
pub open spec fn rice_pixel(s: Seq<u8>, p: int, lastpix: u64, fs: int, bytepix: int) -> Option<(int, u64, i64)> {
    match zeros_from(s, p, 0) {
        None => None,
        Some(nz) => {
            let p1 = p + nz + 1;
            if fs > 0 && p1 + fs > 8 * s.len() {
                None
            } else {
                let low: u64 = if fs > 0 { bits_val(s, p1, fs) as u64 } else { 0u64 };
                let diff: u64 = ((nz as u64) << (fs as u64)) | low;
                let lp = spec_apply_diff(lastpix, diff, spec_width_mask(bytepix));
                Some((if fs > 0 { p1 + fs } else { p1 }, lp, spec_sign_extend(lp, bytepix)))
            }
        }
    }
}

/// One pixel of a raw (high-entropy) block: `bbits` verbatim bits.
pub open spec fn raw_pixel(s: Seq<u8>, p: int, lastpix: u64, bbits: int, bytepix: int) -> Option<(int, u64, i64)> {
    if p + bbits > 8 * s.len() {
        None
    } else {
        let diff = bits_val(s, p, bbits) as u64;
        let lp = spec_apply_diff(lastpix, diff, spec_width_mask(bytepix));
        Some((p + bbits, lp, spec_sign_extend(lp, bytepix)))
    }
}

/// One pixel of a block whose mode is `fs` (`-1`: all differences zero;
/// `fsmax`: raw values; otherwise Rice-coded): the bit position after it,
/// the new last pixel, and the pixel value.
pub open spec fn block_pixel(s: Seq<u8>, p: int, lastpix: u64, fs: int, fsmax: int, bbits: int, bytepix: int) -> Option<(int, u64, i64)> {
    if fs < 0 {
        Some((p, lastpix, spec_sign_extend(lastpix, bytepix)))
    } else if fs == fsmax {
        raw_pixel(s, p, lastpix, bbits, bytepix)
    } else {
        rice_pixel(s, p, lastpix, fs, bytepix)
    }
}

/// Decodes `cnt` pixels of one block whose mode is `fs`. Returns the bit
/// position after the block, the last pixel, and the pixel values.
pub open spec fn rice_block(s: Seq<u8>, p: int, lastpix: u64, cnt: int, fs: int, fsmax: int, bbits: int, bytepix: int) -> Option<(int, u64, Seq<i64>)>
    decreases cnt,
{
    if cnt <= 0 {
        Some((p, lastpix, seq![]))
    } else {
        match block_pixel(s, p, lastpix, fs, fsmax, bbits, bytepix) {
            None => None,
            Some((p1, lp1, v)) => match rice_block(s, p1, lp1, cnt - 1, fs, fsmax, bbits, bytepix) {
                None => None,
                Some((p2, lp2, rest)) => Some((p2, lp2, seq![v] + rest)),
            },
        }
    }
}

/// Decodes pixels `i..nx` starting at bit `p` of the coded stream (after
/// the verbatim first pixel).
pub open spec fn rice_blocks(s: Seq<u8>, p: int, i: int, nx: int, lastpix: u64, bytepix: int, blocksize: int) -> Option<Seq<i64>>
    decreases nx - i,
{
    if i >= nx || blocksize <= 0 || rice_params(bytepix) is None {
        Some(seq![])
    } else {
        let fsbits = rice_params(bytepix)->Some_0.0;
        let fsmax = rice_params(bytepix)->Some_0.1;
        if p + fsbits > 8 * s.len() {
            None
        } else {
            let fs = bits_val(s, p, fsbits) - 1;
            let imax = if i + blocksize < nx { i + blocksize } else { nx };
            match rice_block(s, p + fsbits, lastpix, imax - i, fs, fsmax, pow2_u64(fsbits), bytepix) {
                None => None,
                Some((p2, lp2, vals)) => match rice_blocks(s, p2, imax, nx, lp2, bytepix, blocksize) {
                    None => None,
                    Some(rest) => Some(vals + rest),
                },
            }
        }
    }
}

/// The first `n` bytes of `s` as a big-endian unsigned integer.
pub open spec fn be_value(s: Seq<u8>, n: int) -> int
    decreases n,
{
    if n <= 0 {
        0
    } else {
        be_value(s, n - 1) * 256 + s[n - 1]
    }
}

/// The pixels a `RICE_1` tile of `src` decodes to, or `None` when the tile
/// is malformed: unsupported `bytepix`, zero `blocksize`, shorter than one
/// pixel, or a truncated or runaway code.
pub open spec fn spec_rice_decode(src: Seq<u8>, nx: int, bytepix: int, blocksize: int) -> Option<Seq<i64>> {
    if rice_params(bytepix) is None || blocksize == 0 {
        None
    } else if nx == 0 {
        Some(seq![])
    } else if src.len() < bytepix {
        None
    } else {
        rice_blocks(src.subrange(bytepix, src.len() as int), 0, 0, nx, be_value(src, bytepix) as u64, bytepix, blocksize)
    }
}

// ---------------------------------------------------------------------------
// Exec
// ---------------------------------------------------------------------------

fn rice_error(msg: &str) -> (e: FitsError)
    ensures
        e is UnsupportedCompression,
{
    FitsError::UnsupportedCompression(string_from(msg))
}

/// MSB-first bit reader over a byte slice.
struct BitReader<'a> {
    bytes: &'a [u8],
    /// Index of the byte holding the next bit.
    byte: usize,
    /// Bits of that byte already consumed (0..8).
    bit: u8,
}

impl<'a> BitReader<'a> {
    spec fn pos(&self) -> int {
        8 * self.byte + self.bit
    }

    spec fn wf(&self) -> bool {
        &&& self.bit < 8
        &&& self.byte <= self.bytes@.len()
        &&& self.byte == self.bytes@.len() ==> self.bit == 0
    }

    fn new(bytes: &'a [u8]) -> (r: Self)
        ensures
            r.wf(),
            r.pos() == 0,
            r.bytes@ == bytes@,
    {
        BitReader { bytes, byte: 0, bit: 0 }
    }

    /// The next bit, or `None` at the end of the stream.
    fn next_bit(&mut self) -> (r: Option<u8>)
        requires
            old(self).wf(),
        ensures
            final(self).wf(),
            final(self).bytes@ == old(self).bytes@,
            old(self).pos() < 8 * old(self).bytes@.len() ==> r == Some(sbit(old(self).bytes@, old(self).pos()))
                && final(self).pos() == old(self).pos() + 1,
            old(self).pos() >= 8 * old(self).bytes@.len() ==> r is None,
            r matches Some(b) ==> b <= 1,
    {
        if self.byte >= self.bytes.len() {
            return None;
        }
        let ghost p = self.pos();
        proof {
            let b = self.byte as int;
            let t = self.bit as int;
            assert(p / 8 == b && p % 8 == t) by (nonlinear_arith)
                requires p == 8 * b + t, 0 <= t < 8;
        }
        let x = self.bytes[self.byte];
        let sh = 7 - self.bit;
        let v = (x >> sh) & 1u8;
        assert(v <= 1) by (bit_vector)
            requires v == (x >> sh) & 1u8;
        if self.bit == 7 {
            self.byte = self.byte + 1;
            self.bit = 0;
        } else {
            self.bit = self.bit + 1;
        }
        Some(v)
    }

    /// Reads `n` bits (`n <= 32`) MSB-first.
    fn get_bits(&mut self, n: u32) -> (r: Result<u32, FitsError>)
        requires
            old(self).wf(),
            n <= 32,
        ensures
            final(self).wf(),
            final(self).bytes@ == old(self).bytes@,
            old(self).pos() + n <= 8 * old(self).bytes@.len() ==> r == Ok::<u32, FitsError>(
                bits_val(old(self).bytes@, old(self).pos(), n as int) as u32,
            ) && final(self).pos() == old(self).pos() + n,
            old(self).pos() + n > 8 * old(self).bytes@.len() ==> is_compression_err(r),
    {
        let ghost p0 = self.pos();
        let ghost s = self.bytes@;
        let mut v: u64 = 0;
        let mut k: u32 = 0;
        while k < n
            invariant
                self.wf(),
                self.bytes@ == s,
                s == old(self).bytes@,
                p0 == old(self).pos(),
                k <= n <= 32,
                p0 + k <= 8 * s.len() ==> self.pos() == p0 + k,
                p0 + k <= 8 * s.len(),
                v == bits_val(s, p0, k as int),
                v < pow2_u64(k as int),
            decreases n - k,
        {
            match self.next_bit() {
                None => {
                    return Err(rice_error("RICE_1 stream truncated"));
                },
                Some(b) => {
                    proof {
                        lemma_pow2_step(k as int);
                        assert(v * 2 + b < pow2_u64(k as int + 1)) by (nonlinear_arith)
                            requires v < pow2_u64(k as int), b <= 1, pow2_u64(k as int + 1) == 2 * pow2_u64(k as int);
                        lemma_pow2_le(k as int + 1, 32);
                    }
                    v = v * 2 + b as u64;
                    k = k + 1;
                },
            }
        }
        proof {
            lemma_pow2_le(n as int, 32);
        }
        Ok(v as u32)
    }

    /// Counts consecutive `0` bits up to and consuming the terminating `1`.
    fn count_zeros(&mut self) -> (r: Result<u32, FitsError>)
        requires
            old(self).wf(),
        ensures
            final(self).wf(),
            final(self).bytes@ == old(self).bytes@,
            match zeros_from(old(self).bytes@, old(self).pos(), 0) {
                Some(z) => 0 <= z <= MAX_UNARY_ZEROS && r == Ok::<u32, FitsError>(z as u32)
                    && final(self).pos() == old(self).pos() + z + 1,
                None => is_compression_err(r),
            },
    {
        let ghost p0 = self.pos();
        let ghost s = self.bytes@;
        let mut zeros: u32 = 0;
        loop
            invariant
                self.wf(),
                self.bytes@ == s,
                s == old(self).bytes@,
                p0 == old(self).pos(),
                zeros <= MAX_UNARY_ZEROS,
                self.pos() == p0 + zeros,
                p0 >= 0,
                zeros_from(s, p0, 0) == zeros_from(s, p0, zeros as int),
            decreases 8 * s.len() - self.pos(),
        {
            match self.next_bit() {
                None => {
                    return Err(rice_error("RICE_1 stream truncated"));
                },
                Some(b) => {
                    if b == 1 {
                        return Ok(zeros);
                    }
                    zeros = zeros + 1;
                    if zeros > MAX_UNARY_ZEROS {
                        return Err(rice_error("RICE_1 runaway unary code"));
                    }
                },
            }
        }
    }
}


/// The message for an unsupported `BYTEPIX`:
/// `RICE_1 BYTEPIX=<n> (only 1, 2, 4 are supported)`.
pub open spec fn bytepix_message(bytepix: nat) -> Seq<char> {
    "RICE_1 BYTEPIX="@ + dec(bytepix) + " (only 1, 2, 4 are supported)"@
}

/// Rice parameters `(fsbits, fsmax)` for a given `bytepix` (1, 2, 4).
fn params(bytepix: usize) -> (r: Result<(u32, u32), FitsError>)
    ensures
        match rice_params(bytepix as int) {
            Some((a, b)) => r == Ok::<(u32, u32), FitsError>((a as u32, b as u32)),
            None => r matches Err(FitsError::UnsupportedCompression(m)) && m@ == bytepix_message(bytepix as nat),
        },
{
    if bytepix == 1 {
        Ok((3, 6))
    } else if bytepix == 2 {
        Ok((4, 14))
    } else if bytepix == 4 {
        Ok((5, 25))
    } else {
        let mut m = string_from("RICE_1 BYTEPIX=");
        push_u64(&mut m, bytepix as u64);
        push_str(&mut m, " (only 1, 2, 4 are supported)");
        Err(FitsError::UnsupportedCompression(m))
    }
}

fn width_mask(bytepix: usize) -> (m: u64)
    ensures
        m == spec_width_mask(bytepix as int),
{
    if bytepix == 1 {
        0xFF
    } else if bytepix == 2 {
        0xFFFF
    } else if bytepix == 4 {
        0xFFFF_FFFF
    } else {
        u64::MAX
    }
}

/// Undoes the zigzag mapping and adds the difference to `lastpix`, wrapping
/// at the pixel width.
fn apply_diff(lastpix: u64, diff: u64, mask: u64) -> (r: u64)
    ensures
        r == spec_apply_diff(lastpix, diff, mask),
{
    let signed_diff = if diff & 1 != 0 { (!(diff >> 1)) & mask } else { (diff >> 1) & mask };
    lastpix.wrapping_add(signed_diff) & mask
}

/// Interprets the raw `bytepix`-wide value as its `ZBITPIX` integer.
fn sign_extend(v: u64, bytepix: usize) -> (r: i64)
    ensures
        r == spec_sign_extend(v, bytepix as int),
{
    if bytepix == 1 {
        (v & 0xFF) as i64
    } else if bytepix == 2 {
        v as u16 as i16 as i64
    } else if bytepix == 4 {
        v as u32 as i32 as i64
    } else {
        v as i64
    }
}

/// Decodes one pixel of a block in mode `fs`, returning the new last pixel
/// and the pixel value.
fn decode_pixel(
    reader: &mut BitReader,
    lastpix: u64,
    fs: i32,
    fsmax: u32,
    bbits: u32,
    bytepix: usize,
) -> (r: Result<(u64, i64), FitsError>)
    requires
        old(reader).wf(),
        bbits <= 32,
        -1 <= fs <= 31,
        bytepix == 1 || bytepix == 2 || bytepix == 4,
    ensures
        final(reader).wf(),
        final(reader).bytes@ == old(reader).bytes@,
        match block_pixel(old(reader).bytes@, old(reader).pos(), lastpix, fs as int, fsmax as int, bbits as int, bytepix as int) {
            Some((p1, lp1, v)) => r == Ok::<(u64, i64), FitsError>((lp1, v)) && final(reader).pos() == p1,
            None => is_compression_err(r),
        },
{
    let ghost s = reader.bytes@;
    let ghost p = reader.pos();
    let mask = width_mask(bytepix);
    if fs < 0 {
        Ok((lastpix, sign_extend(lastpix, bytepix)))
    } else if fs as u32 == fsmax {
        proof {
            lemma_bits_val_bound(s, p, bbits as int);
            lemma_pow2_le(bbits as int, 32);
        }
        let diff = reader.get_bits(bbits)?;
        let lp = apply_diff(lastpix, diff as u64, mask);
        Ok((lp, sign_extend(lp, bytepix)))
    } else {
        let nzero = reader.count_zeros()?;
        let ghost p1 = reader.pos();
        proof {
            lemma_bits_val_bound(s, p1, fs as int);
            lemma_pow2_le(fs as int, 32);
            lemma_pow2_le(fs as int, 31);
        }
        let low: u64 = if fs > 0 {
            let b = reader.get_bits(fs as u32)?;
            b as u64
        } else {
            0
        };
        let diff = ((nzero as u64) << (fs as u64)) | low;
        let lp = apply_diff(lastpix, diff, mask);
        Ok((lp, sign_extend(lp, bytepix)))
    }
}

/// Decodes one block of `cnt` pixels in mode `fs`, appending the values to
/// `out`.
fn decode_block(
    reader: &mut BitReader,
    lastpix: &mut u64,
    cnt: usize,
    fs: i32,
    fsmax: u32,
    bbits: u32,
    bytepix: usize,
    out: &mut Vec<i64>,
) -> (r: Result<(), FitsError>)
    requires
        old(reader).wf(),
        bbits <= 32,
        -1 <= fs <= 31,
        bytepix == 1 || bytepix == 2 || bytepix == 4,
    ensures
        final(reader).wf(),
        final(reader).bytes@ == old(reader).bytes@,
        match rice_block(old(reader).bytes@, old(reader).pos(), *old(lastpix), cnt as int, fs as int, fsmax as int, bbits as int, bytepix as int) {
            Some((p2, lp2, vals)) => r is Ok && final(reader).pos() == p2 && *final(lastpix) == lp2
                && final(out)@ == old(out)@ + vals,
            None => is_compression_err(r),
        },
        r is Ok ==> final(out)@.len() == old(out)@.len() + cnt,
{
    let ghost s = reader.bytes@;
    let ghost target = rice_block(s, reader.pos(), *lastpix, cnt as int, fs as int, fsmax as int, bbits as int, bytepix as int);
    let ghost base = out@;
    let mut j: usize = 0;
    while j < cnt
        invariant
            reader.wf(),
            reader.bytes@ == s,
            s == old(reader).bytes@,
            base == old(out)@,
            target == rice_block(old(reader).bytes@, old(reader).pos(), *old(lastpix), cnt as int, fs as int, fsmax as int, bbits as int, bytepix as int),
            j <= cnt,
            bbits <= 32,
            -1 <= fs <= 31,
            bytepix == 1 || bytepix == 2 || bytepix == 4,
            base.len() + j == out@.len(),
            out@.subrange(0, base.len() as int) == base,
            target == match rice_block(s, reader.pos(), *lastpix, (cnt - j) as int, fs as int, fsmax as int, bbits as int, bytepix as int) {
                None => None,
                Some((pe, lpe, rest)) => Some((pe, lpe, out@.subrange(base.len() as int, out@.len() as int) + rest)),
            },
        decreases cnt - j,
    {
        let ghost p = reader.pos();
        let ghost lp = *lastpix;
        let ghost done = out@.subrange(base.len() as int, out@.len() as int);
        let ghost rem = (cnt - j) as int;
        assert(rice_block(s, p, lp, rem, fs as int, fsmax as int, bbits as int, bytepix as int)
            == match block_pixel(s, p, lp, fs as int, fsmax as int, bbits as int, bytepix as int) {
                None => None,
                Some((p1, lp1, v)) => match rice_block(s, p1, lp1, rem - 1, fs as int, fsmax as int, bbits as int, bytepix as int) {
                    None => None,
                    Some((p2, lp2, rest)) => Some((p2, lp2, seq![v] + rest)),
                },
            });
        let (lp1, v) = match decode_pixel(reader, *lastpix, fs, fsmax, bbits, bytepix) {
            Ok(x) => x,
            Err(e) => {
                return Err(e);
            },
        };
        *lastpix = lp1;
        out.push(v);
        proof {
            assert(out@.subrange(base.len() as int, out@.len() as int) =~= done.push(v));
            assert(out@.subrange(0, base.len() as int) =~= base);
            match rice_block(s, reader.pos(), *lastpix, rem - 1, fs as int, fsmax as int, bbits as int, bytepix as int) {
                None => {},
                Some((pe, lpe, rest)) => {
                    assert(done + (seq![v] + rest) =~= done.push(v) + rest);
                },
            }
        }
        j = j + 1;
    }
    proof {
        assert(out@ =~= base + out@.subrange(base.len() as int, out@.len() as int));
        assert(out@.subrange(base.len() as int, out@.len() as int) + seq![] =~= out@.subrange(base.len() as int, out@.len() as int));
    }
    Ok(())
}

#[verifier::spinoff_prover]
#[verifier::rlimit(40)]
/// Decodes `nx` pixels from a `RICE_1` byte stream. `bytepix` is 1, 2, or 4;
/// `blocksize` is the Rice block length (`BLOCKSIZE`, commonly 32). The
/// values are the raw `ZBITPIX`-representation integers, sign extended per
/// `bytepix`.
pub fn decode(src: &[u8], nx: usize, bytepix: usize, blocksize: usize) -> (r: Result<Vec<i64>, FitsError>)
    ensures
        match spec_rice_decode(src@, nx as int, bytepix as int, blocksize as int) {
            Some(v) => r matches Ok(out) && out@ == v,
            None => is_compression_err(r),
        },
{
    let (fsbits, fsmax) = params(bytepix)?;
    let bbits: u32 = 1u32 << fsbits;
    proof {
        assert(fsbits <= 5);
        assert(bbits == pow2_u64(fsbits as int)) by {
            reveal_with_fuel(pow2_u64, 6);
            assert(fsbits == 3 ==> 1u32 << 3u32 == 8u32) by (bit_vector);
            assert(fsbits == 4 ==> 1u32 << 4u32 == 16u32) by (bit_vector);
            assert(fsbits == 5 ==> 1u32 << 5u32 == 32u32) by (bit_vector);
        }
    }
    if blocksize == 0 {
        return Err(rice_error("RICE_1 BLOCKSIZE=0"));
    }
    let mut out: Vec<i64> = Vec::new();
    if nx == 0 {
        return Ok(out);
    }
    if src.len() < bytepix {
        return Err(rice_error("RICE_1 tile shorter than one pixel"));
    }

    // First pixel: bytepix big-endian bytes.
    let mut lastpix: u64 = 0;
    let mut k: usize = 0;
    while k < bytepix
        invariant
            k <= bytepix <= 4,
            bytepix <= src@.len(),
            lastpix == be_value(src@, k as int),
            lastpix < pow2_u64(8 * k),
        decreases bytepix - k,
    {
        proof {
            lemma_pow2_8(k as int);
            lemma_pow2_le(8 * k + 8, 32);
            assert(lastpix * 256 + src@[k as int] < pow2_u64(8 * k + 8)) by (nonlinear_arith)
                requires lastpix < pow2_u64(8 * k), src@[k as int] < 256, pow2_u64(8 * k + 8) == 256 * pow2_u64(8 * k);
        }
        lastpix = lastpix * 256 + src[k] as u64;
        k = k + 1;
    }

    let (_, rest) = src.split_at(bytepix);
    let ghost s = rest@;
    assert(s == src@.subrange(bytepix as int, src@.len() as int));
    let mut reader = BitReader::new(rest);
    let ghost full = rice_blocks(s, 0, 0, nx as int, lastpix, bytepix as int, blocksize as int);
    proof {
        match full {
            None => {},
            Some(t) => { assert(out@ + t =~= t); },
        }
        lemma_pow2_le(fsbits as int, 5);
        assert(pow2_u64(5) == 32) by { reveal_with_fuel(pow2_u64, 6); }
        assert(be_value(src@, bytepix as int) as u64 == lastpix);
        assert(full == spec_rice_decode(src@, nx as int, bytepix as int, blocksize as int));
    }

    let mut i: usize = 0;
    while i < nx
        invariant
            reader.wf(),
            reader.bytes@ == s,
            i <= nx,
            out@.len() == i,
            blocksize > 0,
            bytepix == 1 || bytepix == 2 || bytepix == 4,
            rice_params(bytepix as int) == Some((fsbits as int, fsmax as int)),
            bbits == pow2_u64(fsbits as int),
            fsbits <= 5,
            bbits <= 32,
            full == spec_rice_decode(src@, nx as int, bytepix as int, blocksize as int),
            full == match rice_blocks(s, reader.pos(), i as int, nx as int, lastpix, bytepix as int, blocksize as int) {
                None => None,
                Some(tail) => Some(out@ + tail),
            },
        decreases nx - i,
    {
        let ghost p = reader.pos();
        let ghost lp0 = lastpix;
        let raw_fs = match reader.get_bits(fsbits) {
            Ok(v) => v,
            Err(e) => {
                assert(rice_blocks(s, p, i as int, nx as int, lp0, bytepix as int, blocksize as int) is None);
                return Err(e);
            },
        };
        proof {
            lemma_pow2_le(fsbits as int, 5);
            assert(pow2_u64(5) == 32) by { reveal_with_fuel(pow2_u64, 6); }
            lemma_bits_val_bound(s, p, fsbits as int);
        }
        let fs: i32 = raw_fs as i32 - 1;
        let imax = if blocksize < nx - i { i + blocksize } else { nx };
        let ghost before = out@;
        let ghost p1 = reader.pos();
        match decode_block(&mut reader, &mut lastpix, imax - i, fs, fsmax, bbits, bytepix, &mut out) {
            Ok(()) => {},
            Err(e) => {
                assert(rice_block(s, p1, lp0, (imax - i) as int, fs as int, fsmax as int, bbits as int, bytepix as int) is None);
                assert(rice_blocks(s, p, i as int, nx as int, lp0, bytepix as int, blocksize as int) is None);
                return Err(e);
            },
        }
        proof {
            let vals = out@.subrange(i as int, imax as int);
            assert(out@ =~= before + vals);
            match rice_blocks(s, reader.pos(), imax as int, nx as int, lastpix, bytepix as int, blocksize as int) {
                None => {},
                Some(tail) => {
                    assert(before + (vals + tail) =~= out@ + tail);
                },
            }
        }
        i = imax;
    }
    proof {
        assert(out@ + seq![] =~= out@);
    }
    Ok(out)
}

proof fn lemma_bits_val_bound(s: Seq<u8>, p: int, n: int)
    requires
        0 <= n,
    ensures
        0 <= bits_val(s, p, n) < pow2_u64(n),
    decreases n,
{
    if n > 0 {
        lemma_bits_val_bound(s, p, n - 1);
        lemma_sbit_le1(s, p + n - 1);
    }
}

proof fn lemma_sbit_le1(s: Seq<u8>, p: int)
    ensures
        sbit(s, p) <= 1,
{
    let x = s[p / 8];
    let sh = (7 - p % 8) as u8;
    assert((x >> sh) & 1u8 <= 1u8) by (bit_vector);
}

proof fn lemma_pow2_8(k: int)
    requires
        k >= 0,
    ensures
        pow2_u64(8 * k + 8) == 256 * pow2_u64(8 * k),
{
    reveal_with_fuel(pow2_u64, 9);
}

pub open spec fn pow2_u64(k: int) -> int
    decreases k,
{
    if k <= 0 {
        1
    } else {
        2 * pow2_u64(k - 1)
    }
}

proof fn lemma_pow2_step(k: int)
    requires
        k >= 0,
    ensures
        pow2_u64(k + 1) == 2 * pow2_u64(k),
{
}

proof fn lemma_pow2_le(a: int, b: int)
    requires
        0 <= a <= b,
    ensures
        pow2_u64(a) <= pow2_u64(b),
        pow2_u64(a) >= 1,
        pow2_u64(32) == 0x1_0000_0000,
    decreases b - a,
{
    if a < b {
        lemma_pow2_le(a + 1, b);
    }
    lemma_pow2_pos(a);
    assert(pow2_u64(32) == 0x1_0000_0000) by {
        reveal_with_fuel(pow2_u64, 33);
    }
}

proof fn lemma_pow2_pos(a: int)
    ensures
        pow2_u64(a) >= 1,
    decreases a,
{
    if a > 0 {
        lemma_pow2_pos(a - 1);
    }
}


// ---------------------------------------------------------------------------
// Encoding
// ---------------------------------------------------------------------------

/// `x` reduced to the pixel width given by `mask`.
pub open spec fn masked(x: i64, mask: u64) -> u64 {
    (x as u64) & mask
}

/// The zigzag map of a width-`mask` two's-complement difference: `2d` for
/// non-negative `d`, `-2d - 1` for negative `d`.
pub open spec fn spec_zigzag(d: u64, mask: u64) -> u64 {
    let half = mask ^ (mask >> 1u64);
    if d & half != 0u64 {
        (!(d << 1u64)) & mask
    } else {
        (d << 1u64) & mask
    }
}

/// The zigzag-mapped difference between pixel `i` and its predecessor (the
/// first pixel is its own predecessor).
pub open spec fn mapped_diff(px: Seq<i64>, i: int, mask: u64) -> u64 {
    let prev = if i == 0 { masked(px[0], mask) } else { masked(px[i - 1], mask) };
    spec_zigzag(masked(px[i], mask).wrapping_sub(prev) & mask, mask)
}

pub open spec fn enc_diffs(px: Seq<i64>, mask: u64) -> Seq<u64> {
    Seq::new(px.len(), |i: int| mapped_diff(px, i, mask))
}

pub open spec fn seq_sum(s: Seq<u64>) -> int
    decreases s.len(),
{
    if s.len() == 0 {
        0
    } else {
        seq_sum(s.drop_last()) + s.last()
    }
}

/// Total length of the unary parts of a block coded with split `fs`.
pub open spec fn unary_sum(s: Seq<u64>, fs: int) -> int
    decreases s.len(),
{
    if s.len() == 0 {
        0
    } else {
        unary_sum(s.drop_last(), fs) + (s.last() >> (fs as u64))
    }
}

/// Number of binary digits of `x` (zero for zero).
pub open spec fn bit_len(x: int) -> int
    decreases x,
{
    if x <= 0 {
        0
    } else {
        1 + bit_len(x / 2)
    }
}

/// The split parameter the encoder picks for a block of mapped
/// differences: `-1` for an all-zero block, otherwise the bit length of
/// half the rounded mean, replaced by `fsmax` (raw coding) when the unary
/// parts would exceed `bbits` bits per pixel.
pub open spec fn choose_fs(block: Seq<u64>, fsmax: int, bbits: int) -> int {
    let this = block.len() as int;
    let psum = seq_sum(block);
    if psum == 0 {
        -1
    } else {
        let h = this / 2 + 1;
        let mean = if psum >= h { (psum - h) / this } else { 0 };
        let f = bit_len(mean / 2);
        if f < fsmax && unary_sum(block, f) > this * bbits {
            fsmax
        } else {
            f
        }
    }
}

/// The `n` low bits of `v`, most significant first.
pub open spec fn bits_of(v: u64, n: int) -> Seq<bool> {
    Seq::new(n as nat, |j: int| (v >> ((n - 1 - j) as u64)) & 1u64 == 1u64)
}

/// `k` zero bits followed by a one bit.
pub open spec fn unary(k: u64) -> Seq<bool> {
    Seq::new(k as nat, |j: int| false).push(true)
}

pub open spec fn low_mask(fs: int) -> u64 {
    ((1u64 << (fs as u64)) - 1) as u64
}

/// Raw codes of a block: each value in `bbits` bits.
pub open spec fn raw_codes(block: Seq<u64>, bbits: int) -> Seq<bool>
    decreases block.len(),
{
    if block.len() == 0 {
        seq![]
    } else {
        raw_codes(block.drop_last(), bbits) + bits_of(block.last(), bbits)
    }
}

/// Rice codes of a block: unary quotient, then the `fs` low bits.
pub open spec fn rice_codes(block: Seq<u64>, fs: int) -> Seq<bool>
    decreases block.len(),
{
    if block.len() == 0 {
        seq![]
    } else {
        rice_codes(block.drop_last(), fs) + unary(block.last() >> (fs as u64)) + bits_of(
            block.last() & low_mask(fs),
            fs,
        )
    }
}

/// The bits of one coded block: the `fsbits`-wide mode field, then the codes.
pub open spec fn block_bits(block: Seq<u64>, fs: int, fsbits: int, fsmax: int, bbits: int) -> Seq<bool> {
    if fs < 0 {
        bits_of(0, fsbits)
    } else if fs >= fsmax {
        bits_of((fsmax + 1) as u64, fsbits) + raw_codes(block, bbits)
    } else {
        bits_of((fs + 1) as u64, fsbits) + rice_codes(block, fs)
    }
}

/// The coded bits of the blocks of `d` from index `i` on.
pub open spec fn enc_from(d: Seq<u64>, i: int, blocksize: int, fsbits: int, fsmax: int, bbits: int) -> Seq<bool>
    decreases d.len() - i,
{
    if blocksize <= 0 || i >= d.len() {
        seq![]
    } else {
        let imax = if i + blocksize < d.len() { i + blocksize } else { d.len() as int };
        let block = d.subrange(i, imax);
        block_bits(block, choose_fs(block, fsmax, bbits), fsbits, fsmax, bbits) + enc_from(
            d,
            imax,
            blocksize,
            fsbits,
            fsmax,
            bbits,
        )
    }
}

/// Bit `k` of `bits` as 0 or 1, zero past the end.
pub open spec fn bit_at(bits: Seq<bool>, k: int) -> int {
    if 0 <= k < bits.len() && bits[k] { 1 } else { 0 }
}

/// The first `j` bits of byte `i` of the packed stream.
pub open spec fn byte_prefix(bits: Seq<bool>, i: int, j: int) -> int
    decreases j,
{
    if j <= 0 {
        0
    } else {
        byte_prefix(bits, i, j - 1) * 2 + bit_at(bits, 8 * i + j - 1)
    }
}

/// `bits` packed MSB-first into bytes, the last byte padded with zeros.
pub open spec fn pack_bits(bits: Seq<bool>) -> Seq<u8> {
    Seq::new(((bits.len() + 7) / 8) as nat, |i: int| byte_prefix(bits, i, 8) as u8)
}

/// `v` as `n` big-endian bytes.
pub open spec fn be_bytes(v: u64, n: int) -> Seq<u8> {
    Seq::new(n as nat, |k: int| ((v >> ((8 * (n - 1 - k)) as u64)) & 0xFFu64) as u8)
}

/// The `RICE_1` tile that `px` encodes to, or `None` for an unsupported
/// `bytepix` or a zero `blocksize`.
pub open spec fn spec_rice_encode(px: Seq<i64>, bytepix: int, blocksize: int) -> Option<Seq<u8>> {
    match rice_params(bytepix) {
        None => None,
        Some((fsbits, fsmax)) => if blocksize == 0 {
            None
        } else if px.len() == 0 {
            Some(seq![])
        } else {
            let mask = spec_width_mask(bytepix);
            Some(be_bytes(masked(px[0], mask), bytepix) + pack_bits(
                enc_from(enc_diffs(px, mask), 0, blocksize, fsbits, fsmax, pow2_u64(fsbits)),
            ))
        },
    }
}

/// MSB-first bit writer; the bits are packed into bytes by `finish`.
struct BitWriter {
    bits: Vec<bool>,
}

impl BitWriter {
    fn new() -> (w: Self)
        ensures
            w.bits@ == Seq::<bool>::empty(),
    {
        BitWriter { bits: Vec::new() }
    }

    /// Appends the `n` low bits of `v`, most significant first.
    fn put_bits(&mut self, n: u32, v: u64)
        requires
            n <= 32,
        ensures
            final(self).bits@ == old(self).bits@ + bits_of(v, n as int),
    {
        let mut k: u32 = n;
        while k > 0
            invariant
                k <= n <= 32,
                self.bits@ == old(self).bits@ + bits_of(v, n as int).subrange(0, (n - k) as int),
            decreases k,
        {
            k = k - 1;
            let b = (v >> k) & 1 == 1;
            self.bits.push(b);
            assert(bits_of(v, n as int).subrange(0, (n - k) as int) =~= bits_of(v, n as int).subrange(
                0,
                (n - k - 1) as int,
            ).push(b));
        }
        assert(bits_of(v, n as int).subrange(0, n as int) =~= bits_of(v, n as int));
    }

    /// `k` zero bits followed by a single `1` bit.
    fn put_unary(&mut self, k: u64)
        ensures
            final(self).bits@ == old(self).bits@ + unary(k),
    {
        let mut left: u64 = 0;
        while left < k
            invariant
                left <= k,
                self.bits@ == old(self).bits@ + Seq::new(left as nat, |j: int| false),
            decreases k - left,
        {
            self.bits.push(false);
            left = left + 1;
            assert(Seq::new(left as nat, |j: int| false) =~= Seq::new((left - 1) as nat, |j: int| false).push(false));
        }
        self.bits.push(true);
        assert(old(self).bits@ + unary(k) =~= old(self).bits@ + Seq::new(k as nat, |j: int| false) + seq![true]);
    }

    /// The bits packed into bytes, the last one padded with zero bits.
    fn finish(self) -> (out: Vec<u8>)
        ensures
            out@ == pack_bits(self.bits@),
    {
        let n = self.bits.len();
        let nbytes = n / 8 + if n % 8 == 0 { 0 } else { 1 };
        assert(nbytes == (n + 7) / 8);
        let mut out: Vec<u8> = Vec::new();
        let mut i: usize = 0;
        while i < nbytes
            invariant
                i <= nbytes,
                nbytes == (self.bits@.len() + 7) / 8,
                n == self.bits@.len(),
                out@.len() == i,
                forall|q: int| 0 <= q < i ==> out@[q] == byte_prefix(self.bits@, q, 8) as u8,
            decreases nbytes - i,
        {
            let mut b: u32 = 0;
            let mut j: usize = 0;
            while j < 8
                invariant
                    i < nbytes,
                    nbytes == (self.bits@.len() + 7) / 8,
                    n == self.bits@.len(),
                    j <= 8,
                    b == byte_prefix(self.bits@, i as int, j as int),
                    b < pow2_u64(j as int),
                decreases 8 - j,
            {
                assert(i * 8 + j <= usize::MAX) by {
                    assert(i < nbytes);
                }
                let k = 8 * i + j;
                let bit: u32 = if k < n && self.bits[k] { 1 } else { 0 };
                proof {
                    lemma_pow2_step(j as int);
                    lemma_pow2_le(j as int + 1, 8);
                    assert(pow2_u64(8) == 256) by { reveal_with_fuel(pow2_u64, 9); }
                }
                b = b * 2 + bit;
                j = j + 1;
            }
            proof {
                assert(pow2_u64(8) == 256) by { reveal_with_fuel(pow2_u64, 9); }
            }
            out.push(b as u8);
            i = i + 1;
        }
        assert(out@ =~= pack_bits(self.bits@));
        out
    }
}

/// The zigzag map of a width-`mask` difference.
fn zigzag(d: u64, mask: u64) -> (r: u64)
    ensures
        r == spec_zigzag(d, mask),
        r <= mask,
{
    let half = mask ^ (mask >> 1);
    let r = if d & half != 0 { (!(d << 1)) & mask } else { (d << 1) & mask };
    assert(r & mask <= mask) by (bit_vector);
    assert(r & mask == r) by (bit_vector)
        requires r == (if d & half != 0 { (!(d << 1u64)) & mask } else { (d << 1u64) & mask });
    r
}

proof fn lemma_bit_len_bound(x: int, k: int)
    requires
        0 <= x < pow2_u64(k),
        0 <= k,
    ensures
        0 <= bit_len(x) <= k,
    decreases k,
{
    if x > 0 {
        assert(k > 0);
        lemma_bit_len_bound(x / 2, k - 1);
    }
}

proof fn lemma_seq_sum_bound(s: Seq<u64>, m: int)
    requires
        forall|q: int| 0 <= q < s.len() ==> s[q] <= m,
    ensures
        0 <= seq_sum(s) <= s.len() * m,
    decreases s.len(),
{
    if s.len() > 0 {
        lemma_seq_sum_bound(s.drop_last(), m);
        assert(seq_sum(s.drop_last()) + s.last() <= s.len() * m) by (nonlinear_arith)
            requires seq_sum(s.drop_last()) <= (s.len() - 1) * m, s.last() <= m;
    }
}

proof fn lemma_unary_sum_bound(s: Seq<u64>, fs: int)
    ensures
        0 <= unary_sum(s, fs) <= s.len() * 0xFFFF_FFFF_FFFF_FFFF,
    decreases s.len(),
{
    if s.len() > 0 {
        lemma_unary_sum_bound(s.drop_last(), fs);
        let x = s.last() >> (fs as u64);
        assert(x <= 0xFFFF_FFFF_FFFF_FFFFu64);
        assert(unary_sum(s.drop_last(), fs) + x <= s.len() * 0xFFFF_FFFF_FFFF_FFFF) by (nonlinear_arith)
            requires unary_sum(s.drop_last(), fs) <= (s.len() - 1) * 0xFFFF_FFFF_FFFF_FFFF, x <= 0xFFFF_FFFF_FFFF_FFFF;
    }
}

/// Picks the split parameter for a block (see [`choose_fs`]).
fn block_fs(block: &Vec<u64>, fsmax: u32, bbits: u32) -> (fs: i32)
    requires
        block@.len() > 0,
        fsmax <= 25,
        bbits <= 32,
        block@.len() <= usize::MAX,
    ensures
        fs as int == choose_fs(block@, fsmax as int, bbits as int),
        -1 <= fs,
{
    let this = block.len();
    let ghost s = block@;
    let mut psum: u128 = 0;
    let mut j: usize = 0;
    while j < this
        invariant
            j <= this == s.len(),
            s == block@,
            psum == seq_sum(s.subrange(0, j as int)),
            psum <= j * 0xFFFF_FFFF_FFFF_FFFF,
        decreases this - j,
    {
        assert(s.subrange(0, j + 1).drop_last() =~= s.subrange(0, j as int));
        proof {
            assert(psum + block@[j as int] <= (j + 1) * 0xFFFF_FFFF_FFFF_FFFF) by (nonlinear_arith)
                requires psum <= j * 0xFFFF_FFFF_FFFF_FFFF, block@[j as int] <= 0xFFFF_FFFF_FFFF_FFFFu64;
            assert((j + 1) * 0xFFFF_FFFF_FFFF_FFFF < 0x1_0000_0000_0000_0000_0000_0000_0000_0000) by (nonlinear_arith)
                requires j < this, this <= 0xFFFF_FFFF_FFFF_FFFF;
        }
        psum = psum + block[j] as u128;
        j = j + 1;
    }
    assert(s.subrange(0, this as int) =~= s);
    if psum == 0 {
        return -1;
    }
    let h: u128 = (this as u128) / 2 + 1;
    let mean: u128 = if psum >= h { (psum - h) / (this as u128) } else { 0 };
    proof {
        if psum >= h {
            assert((psum - h) / (this as int) <= 0xFFFF_FFFF_FFFF_FFFF) by (nonlinear_arith)
                requires psum <= this * 0xFFFF_FFFF_FFFF_FFFF, this > 0, h > 0, psum >= h;
        }
    }
    let mut p: u64 = (mean / 2) as u64;
    let mut f: u32 = 0;
    proof {
        assert(pow2_u64(64) == 0x1_0000_0000_0000_0000) by { reveal_with_fuel(pow2_u64, 65); }
        lemma_bit_len_bound(p as int, 64);
    }
    while p > 0
        invariant
            f + bit_len(p as int) == bit_len((mean / 2) as int),
            bit_len((mean / 2) as int) <= 64,
            0 <= bit_len(p as int),
            pow2_u64(64) == 0x1_0000_0000_0000_0000,
        decreases p,
    {
        proof {
            lemma_bit_len_bound((p / 2) as int, 64);
        }
        p = p / 2;
        f = f + 1;
    }
    let mut fs: i32 = f as i32;
    if f < fsmax {
        let mut us: u128 = 0;
        let mut j: usize = 0;
        while j < this
            invariant
                j <= this == s.len(),
                s == block@,
                f < fsmax <= 25,
                us == unary_sum(s.subrange(0, j as int), f as int),
                us <= j * 0xFFFF_FFFF_FFFF_FFFF,
            decreases this - j,
        {
            assert(s.subrange(0, j + 1).drop_last() =~= s.subrange(0, j as int));
            let x = block[j] >> f;
            proof {
                assert(us + x <= (j + 1) * 0xFFFF_FFFF_FFFF_FFFF) by (nonlinear_arith)
                    requires us <= j * 0xFFFF_FFFF_FFFF_FFFF, x <= 0xFFFF_FFFF_FFFF_FFFFu64;
                assert((j + 1) * 0xFFFF_FFFF_FFFF_FFFF < 0x1_0000_0000_0000_0000_0000_0000_0000_0000) by (nonlinear_arith)
                    requires j < this, this <= 0xFFFF_FFFF_FFFF_FFFF;
            }
            us = us + x as u128;
            j = j + 1;
        }
        assert(s.subrange(0, this as int) =~= s);
        assert((this as u128) * (bbits as u128) <= 0xFFFF_FFFF_FFFF_FFFF * 32) by (nonlinear_arith)
            requires this <= 0xFFFF_FFFF_FFFF_FFFFu64, bbits <= 32;
        if us > (this as u128) * (bbits as u128) {
            fs = fsmax as i32;
        }
    }
    fs
}

/// Encodes `pixels` (raw `ZBITPIX`-representation integers) as a `RICE_1`
/// tile stream, the inverse of [`decode`].
pub fn encode(pixels: &[i64], bytepix: usize, blocksize: usize) -> (r: Result<Vec<u8>, FitsError>)
    ensures
        match spec_rice_encode(pixels@, bytepix as int, blocksize as int) {
            Some(bytes) => r matches Ok(out) && out@ == bytes,
            None => is_compression_err(r),
        },
{
    let (fsbits, fsmax) = params(bytepix)?;
    let bbits: u32 = 1u32 << fsbits;
    proof {
        assert(bbits == pow2_u64(fsbits as int)) by {
            reveal_with_fuel(pow2_u64, 6);
            assert(fsbits == 3 ==> 1u32 << 3u32 == 8u32) by (bit_vector);
            assert(fsbits == 4 ==> 1u32 << 4u32 == 16u32) by (bit_vector);
            assert(fsbits == 5 ==> 1u32 << 5u32 == 32u32) by (bit_vector);
        }
    }
    if blocksize == 0 {
        return Err(rice_error("RICE_1 BLOCKSIZE=0"));
    }
    let mask = width_mask(bytepix);
    let mut out: Vec<u8> = Vec::new();
    if pixels.len() == 0 {
        return Ok(out);
    }
    let ghost px = pixels@;
    let ghost dd = enc_diffs(px, mask);

    // First pixel verbatim, big-endian.
    let first = (#[verifier::truncate] (pixels[0] as u64)) & mask;
    let mut k: usize = bytepix;
    while k > 0
        invariant
            k <= bytepix <= 4,
            out@ == be_bytes(first, bytepix as int).subrange(0, (bytepix - k) as int),
        decreases k,
    {
        k = k - 1;
        let byte = #[verifier::truncate] (((first >> (8 * k as u64)) & 0xFF) as u8);
        out.push(byte);
        assert(be_bytes(first, bytepix as int).subrange(0, (bytepix - k) as int) =~= be_bytes(first, bytepix as int).subrange(
            0,
            (bytepix - k - 1) as int,
        ).push(byte));
    }
    assert(be_bytes(first, bytepix as int).subrange(0, bytepix as int) =~= be_bytes(first, bytepix as int));

    proof {
        lemma_pow2_le(fsbits as int, 5);
        assert(pow2_u64(5) == 32) by { reveal_with_fuel(pow2_u64, 6); }
    }
    let mut w = BitWriter::new();
    let mut lastpix = first;
    let n = pixels.len();
    let mut i: usize = 0;
    assert(w.bits@ + enc_from(dd, 0, blocksize as int, fsbits as int, fsmax as int, bbits as int)
        =~= enc_from(dd, 0, blocksize as int, fsbits as int, fsmax as int, bbits as int));
    while i < n
        invariant
            n == px.len() == dd.len(),
            px == pixels@,
            dd == enc_diffs(px, mask),
            mask == spec_width_mask(bytepix as int),
            i <= n,
            i > 0 ==> lastpix == masked(px[i - 1], mask),
            i == 0 ==> lastpix == masked(px[0], mask),
            blocksize > 0,
            rice_params(bytepix as int) == Some((fsbits as int, fsmax as int)),
            fsbits <= 5,
            fsmax <= 25,
            bbits == pow2_u64(fsbits as int),
            bbits <= 32,
            w.bits@ + enc_from(dd, i as int, blocksize as int, fsbits as int, fsmax as int, bbits as int)
                == enc_from(dd, 0, blocksize as int, fsbits as int, fsmax as int, bbits as int),
        decreases n - i,
    {
        let this = if n - i < blocksize { n - i } else { blocksize };
        let mut diffs: Vec<u64> = Vec::new();
        let mut j: usize = 0;
        while j < this
            invariant
                n == px.len() == dd.len(),
                px == pixels@,
                dd == enc_diffs(px, mask),
                i + this <= n,
                j <= this,
                i + j > 0 ==> lastpix == masked(px[i + j - 1], mask),
                i + j == 0 ==> lastpix == masked(px[0], mask),
                diffs@ == dd.subrange(i as int, (i + j) as int),
            decreases this - j,
        {
            let cur = (#[verifier::truncate] (pixels[i + j] as u64)) & mask;
            let d = cur.wrapping_sub(lastpix) & mask;
            let mapped = zigzag(d, mask);
            diffs.push(mapped);
            assert(diffs@ =~= dd.subrange(i as int, (i + j + 1) as int));
            lastpix = cur;
            j = j + 1;
        }
        let ghost block = dd.subrange(i as int, (i + this) as int);
        let fs = block_fs(&diffs, fsmax, bbits);
        let ghost before = w.bits@;
        if fs < 0 {
            w.put_bits(fsbits, 0);
        } else if fs >= fsmax as i32 {
            w.put_bits(fsbits, (fsmax + 1) as u64);
            let ghost mid = w.bits@;
            let mut j: usize = 0;
            while j < this
                invariant
                    j <= this == diffs@.len(),
                    bbits <= 32,
                    w.bits@ == mid + raw_codes(diffs@.subrange(0, j as int), bbits as int),
                decreases this - j,
            {
                w.put_bits(bbits, diffs[j]);
                assert(diffs@.subrange(0, j + 1).drop_last() =~= diffs@.subrange(0, j as int));
                j = j + 1;
            }
            assert(diffs@.subrange(0, this as int) =~= diffs@);
        } else {
            w.put_bits(fsbits, (fs + 1) as u64);
            let ghost mid = w.bits@;
            let mut j: usize = 0;
            while j < this
                invariant
                    j <= this == diffs@.len(),
                    0 <= fs < fsmax <= 25,
                    w.bits@ == mid + rice_codes(diffs@.subrange(0, j as int), fs as int),
                decreases this - j,
            {
                let d = diffs[j];
                w.put_unary(d >> fs);
                assert(1u64 << (fs as u64) >= 1) by (bit_vector)
                    requires 0 <= fs < 25;
                let low = d & ((1u64 << fs) - 1);
                w.put_bits(fs as u32, low);
                assert(diffs@.subrange(0, j + 1).drop_last() =~= diffs@.subrange(0, j as int));
                j = j + 1;
            }
            assert(diffs@.subrange(0, this as int) =~= diffs@);
        }
        proof {
            let imax = (i + this) as int;
            assert(imax == if i + blocksize < n { i + blocksize } else { n as int });
            assert(enc_from(dd, i as int, blocksize as int, fsbits as int, fsmax as int, bbits as int)
                == block_bits(block, fs as int, fsbits as int, fsmax as int, bbits as int)
                    + enc_from(dd, imax, blocksize as int, fsbits as int, fsmax as int, bbits as int));
            assert(w.bits@ == before + block_bits(block, fs as int, fsbits as int, fsmax as int, bbits as int));
            assert(w.bits@ + enc_from(dd, imax, blocksize as int, fsbits as int, fsmax as int, bbits as int)
                =~= before + (block_bits(block, fs as int, fsbits as int, fsmax as int, bbits as int)
                    + enc_from(dd, imax, blocksize as int, fsbits as int, fsmax as int, bbits as int)));
        }
        i = i + this;
    }
    assert(w.bits@ =~= enc_from(dd, 0, blocksize as int, fsbits as int, fsmax as int, bbits as int));
    let mut packed = w.finish();
    out.append(&mut packed);
    Ok(out)
}

} // verus!
