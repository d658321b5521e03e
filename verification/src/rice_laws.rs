//! The `RICE_1` round trip: decoding what [`crate::rice::encode`] produces
//! gives back the pixels, for every pixel sequence representable at the
//! tile's pixel width.

use vstd::prelude::*;
use crate::rice::{
    be_bytes, be_value, bit_at, bits_of, bits_val, block_pixel, byte_prefix, low_mask, mapped_diff, masked, pack_bits, sbit,
    spec_apply_diff, spec_sign_extend, spec_width_mask, spec_zigzag, unary, enc_diffs, rice_block, raw_codes, rice_codes, block_bits, seq_sum, unary_sum, choose_fs, bit_len, enc_from, rice_blocks, rice_params, pow2_u64, spec_rice_encode, spec_rice_decode, zeros_from, MAX_UNARY_ZEROS,
};

verus! {

// ---------------------------------------------------------------------------
// Reading back packed bits
// ---------------------------------------------------------------------------

/// Bits `p..p + n` of `b` as an unsigned integer, first bit most
/// significant.
pub open spec fn bseg(b: Seq<bool>, p: int, n: int) -> int
    decreases n,
{
    if n <= 0 {
        0
    } else {
        bseg(b, p, n - 1) * 2 + bit_at(b, p + n - 1)
    }
}

/// `y` occurs in `b` starting at bit `p`.
pub open spec fn at(b: Seq<bool>, p: int, y: Seq<bool>) -> bool {
    0 <= p && p + y.len() <= b.len() && b.subrange(p, p + y.len()) == y
}

proof fn lemma_byte_bits(x: u8, b0: u8, b1: u8, b2: u8, b3: u8, b4: u8, b5: u8, b6: u8, b7: u8)
    by (bit_vector)
    requires
        b0 <= 1 && b1 <= 1 && b2 <= 1 && b3 <= 1 && b4 <= 1 && b5 <= 1 && b6 <= 1 && b7 <= 1,
        x == b0 * 128 + b1 * 64 + b2 * 32 + b3 * 16 + b4 * 8 + b5 * 4 + b6 * 2 + b7,
    ensures
        (x >> 7u8) & 1u8 == b0,
        (x >> 6u8) & 1u8 == b1,
        (x >> 5u8) & 1u8 == b2,
        (x >> 4u8) & 1u8 == b3,
        (x >> 3u8) & 1u8 == b4,
        (x >> 2u8) & 1u8 == b5,
        (x >> 1u8) & 1u8 == b6,
        (x >> 0u8) & 1u8 == b7,
{
}

/// Bit `k` of the packed stream is bit `k` of `b` (zero in the padding).
proof fn lemma_sbit_pack(b: Seq<bool>, k: int)
    requires
        0 <= k < 8 * pack_bits(b).len(),
    ensures
        sbit(pack_bits(b), k) as int == bit_at(b, k),
{
    let i = k / 8;
    let j = k % 8;
    reveal_with_fuel(byte_prefix, 9);
    let c0 = bit_at(b, 8 * i);
    let c1 = bit_at(b, 8 * i + 1);
    let c2 = bit_at(b, 8 * i + 2);
    let c3 = bit_at(b, 8 * i + 3);
    let c4 = bit_at(b, 8 * i + 4);
    let c5 = bit_at(b, 8 * i + 5);
    let c6 = bit_at(b, 8 * i + 6);
    let c7 = bit_at(b, 8 * i + 7);
    let v = byte_prefix(b, i, 8);
    assert(v == c0 * 128 + c1 * 64 + c2 * 32 + c3 * 16 + c4 * 8 + c5 * 4 + c6 * 2 + c7);
    let x = pack_bits(b)[i];
    assert(x == v as u8);
    lemma_byte_bits(x, c0 as u8, c1 as u8, c2 as u8, c3 as u8, c4 as u8, c5 as u8, c6 as u8, c7 as u8);
    assert(8 * i + j == k);
}

/// Reading `n` bits of the packed stream reads `n` bits of `b`.
proof fn lemma_bits_val_pack(b: Seq<bool>, p: int, n: int)
    requires
        0 <= p,
        0 <= n,
        p + n <= 8 * pack_bits(b).len(),
    ensures
        bits_val(pack_bits(b), p, n) == bseg(b, p, n),
    decreases n,
{
    if n > 0 {
        lemma_bits_val_pack(b, p, n - 1);
        lemma_sbit_pack(b, p + n - 1);
    }
}

/// A segment read inside an occurrence of `y` reads `y`.
proof fn lemma_bseg_at(b: Seq<bool>, p: int, y: Seq<bool>, n: int)
    requires
        at(b, p, y),
        0 <= n <= y.len(),
    ensures
        bseg(b, p, n) == bseg(y, 0, n),
    decreases n,
{
    if n > 0 {
        lemma_bseg_at(b, p, y, n - 1);
        assert(b[p + n - 1] == y[n - 1]);
    }
}

proof fn lemma_shift_step(v: u64, k: u64)
    by (bit_vector)
    requires
        k < 64,
    ensures
        (v >> (k + 1)) * 2 + ((v >> k) & 1u64) == v >> k,
        (v >> k) & 1u64 <= 1u64,
{
}

/// The first `m` of the `n` bits of `v`.
proof fn lemma_bseg_bits_of_prefix(v: u64, n: int, m: int)
    requires
        0 <= m <= n < 64,
        v >> (n as u64) == 0,
    ensures
        bseg(bits_of(v, n), 0, m) == (v >> ((n - m) as u64)) as int,
    decreases m,
{
    if m > 0 {
        lemma_bseg_bits_of_prefix(v, n, m - 1);
        let k = (n - m) as u64;
        lemma_shift_step(v, k);
        assert((n - (m - 1)) as u64 == k + 1);
        let bits = bits_of(v, n);
        assert(bits[m - 1] == ((v >> ((n - 1 - (m - 1)) as u64)) & 1u64 == 1u64));
        assert((n - 1 - (m - 1)) as u64 == k);
    }
}

/// Reading back the `n` bits of `v` gives `v`.
proof fn lemma_bseg_bits_of(v: u64, n: int)
    requires
        0 <= n < 64,
        v >> (n as u64) == 0,
    ensures
        bseg(bits_of(v, n), 0, n) == v as int,
{
    lemma_bseg_bits_of_prefix(v, n, n);
    assert(v >> 0u64 == v) by (bit_vector);
}

/// An occurrence of `x + y` is an occurrence of `x` followed by one of `y`.
proof fn lemma_at_split(b: Seq<bool>, p: int, x: Seq<bool>, y: Seq<bool>)
    requires
        at(b, p, x + y),
    ensures
        at(b, p, x),
        at(b, p + x.len(), y),
{
    let xy = x + y;
    assert(b.subrange(p, p + x.len()) =~= xy.subrange(0, x.len() as int));
    assert(xy.subrange(0, x.len() as int) =~= x);
    assert(b.subrange(p + x.len(), p + x.len() + y.len()) =~= xy.subrange(x.len() as int, xy.len() as int));
    assert(xy.subrange(x.len() as int, xy.len() as int) =~= y);
}

/// `pack_bits` holds at least every bit of `b`.
proof fn lemma_pack_len(b: Seq<bool>)
    ensures
        b.len() <= 8 * pack_bits(b).len(),
{
}

// ---------------------------------------------------------------------------
// Pixel values
// ---------------------------------------------------------------------------

/// `x` is a value of the pixel type `bytepix` bytes wide: unsigned for one
/// byte, two's complement for two and four.
pub open spec fn fits_width(x: i64, bytepix: int) -> bool {
    if bytepix == 1 {
        0 <= x <= 255
    } else if bytepix == 2 {
        -32768 <= x <= 32767
    } else if bytepix == 4 {
        -2147483648 <= x <= 2147483647
    } else {
        false
    }
}

proof fn lemma_sign_extend_masked(x: i64, bytepix: int)
    requires
        fits_width(x, bytepix),
    ensures
        spec_sign_extend(masked(x, spec_width_mask(bytepix)), bytepix) == x,
        masked(x, spec_width_mask(bytepix)) <= spec_width_mask(bytepix),
{
    if bytepix == 1 {
        assert(0 <= x <= 255 ==> (((x as u64) & 0xFFu64) & 0xFFu64) as i64 == x && (x as u64) & 0xFFu64 <= 0xFFu64)
            by (bit_vector);
    } else if bytepix == 2 {
        assert(-32768 <= x <= 32767 ==> ((x as u64) & 0xFFFFu64) as u16 as i16 as i64 == x && (x as u64)
            & 0xFFFFu64 <= 0xFFFFu64) by (bit_vector);
    } else {
        assert(-2147483648 <= x <= 2147483647 ==> ((x as u64) & 0xFFFF_FFFFu64) as u32 as i32 as i64 == x
            && (x as u64) & 0xFFFF_FFFFu64 <= 0xFFFF_FFFFu64) by (bit_vector);
    }
}

proof fn lemma_zigzag_inverse_bv(last: u64, cur: u64, mask: u64)
    by (bit_vector)
    requires
        mask == 0xFFu64 || mask == 0xFFFFu64 || mask == 0xFFFF_FFFFu64,
        last <= mask,
        cur <= mask,
    ensures
        ({
            let d = cur.wrapping_sub(last) & mask;
            let half = mask ^ (mask >> 1u64);
            let z = if d & half != 0u64 { (!(d << 1u64)) & mask } else { (d << 1u64) & mask };
            let sd = if z & 1u64 != 0u64 { (!(z >> 1u64)) & mask } else { (z >> 1u64) & mask };
            &&& (last.wrapping_add(sd)) & mask == cur
            &&& z <= mask
        }),
{
}

/// Undoing the zigzag-mapped difference recovers the pixel.
proof fn lemma_zigzag_inverse(last: u64, cur: u64, mask: u64)
    requires
        mask == 0xFFu64 || mask == 0xFFFFu64 || mask == 0xFFFF_FFFFu64,
        last <= mask,
        cur <= mask,
    ensures
        spec_apply_diff(last, spec_zigzag(cur.wrapping_sub(last) & mask, mask), mask) == cur,
        spec_zigzag(cur.wrapping_sub(last) & mask, mask) <= mask,
        spec_apply_diff(last, 0u64, mask) == last,
{
    lemma_zigzag_inverse_bv(last, cur, mask);
    assert((mask == 0xFFu64 || mask == 0xFFFFu64 || mask == 0xFFFF_FFFFu64) && last <= mask ==> (last.wrapping_add(
        if 0u64 & 1u64 != 0u64 { (!(0u64 >> 1u64)) & mask } else { (0u64 >> 1u64) & mask },
    )) & mask == last) by (bit_vector);
}

/// The verbatim first pixel reads back.
proof fn lemma_be_value(v: u64, n: int, rest: Seq<u8>)
    requires
        n == 1 || n == 2 || n == 4,
        v <= spec_width_mask(n),
    ensures
        be_value(be_bytes(v, n) + rest, n) == v as int,
{
    let s = be_bytes(v, n) + rest;
    reveal_with_fuel(be_value, 5);
    if n == 1 {
        assert(s[0] == ((v >> 0u64) & 0xFFu64) as u8);
        assert(v <= 0xFF ==> ((v >> 0u64) & 0xFFu64) as u8 as u64 == v) by (bit_vector);
    } else if n == 2 {
        assert(s[0] == ((v >> 8u64) & 0xFFu64) as u8);
        assert(s[1] == ((v >> 0u64) & 0xFFu64) as u8);
        assert(v <= 0xFFFF ==> ((v >> 8u64) & 0xFFu64) as u8 as u64 * 256 + ((v >> 0u64) & 0xFFu64) as u8 as u64
            == v) by (bit_vector);
    } else {
        assert(s[0] == ((v >> 24u64) & 0xFFu64) as u8);
        assert(s[1] == ((v >> 16u64) & 0xFFu64) as u8);
        assert(s[2] == ((v >> 8u64) & 0xFFu64) as u8);
        assert(s[3] == ((v >> 0u64) & 0xFFu64) as u8);
        assert(v <= 0xFFFF_FFFF ==> ((((v >> 24u64) & 0xFFu64) as u8 as u64 * 256 + ((v >> 16u64) & 0xFFu64) as u8
            as u64) * 256 + ((v >> 8u64) & 0xFFu64) as u8 as u64) * 256 + ((v >> 0u64) & 0xFFu64) as u8 as u64
            == v) by (bit_vector);
    }
}

// ---------------------------------------------------------------------------
// Decoding one coded pixel
// ---------------------------------------------------------------------------

/// The code of one mapped difference `d` in a block whose mode, as the
/// decoder reads it, is `fs`: nothing in an all-zero block, `bbits` raw
/// bits in a raw block, else the unary quotient and `fs` remainder bits.
pub open spec fn pix_code(d: u64, fs: int, fsmax: int, bbits: int) -> Seq<bool> {
    if fs < 0 {
        seq![]
    } else if fs == fsmax {
        bits_of(d, bbits)
    } else {
        unary(d >> (fs as u64)) + bits_of(d & low_mask(fs), fs)
    }
}

/// The codes of a block's mapped differences, in order.
pub open spec fn codes_of(blk: Seq<u64>, fs: int, fsmax: int, bbits: int) -> Seq<bool>
    decreases blk.len(),
{
    if blk.len() == 0 {
        seq![]
    } else {
        codes_of(blk.drop_last(), fs, fsmax, bbits) + pix_code(blk.last(), fs, fsmax, bbits)
    }
}

/// A run of `k` zeros ending in a one is read as `k`.
proof fn lemma_zeros_from(b: Seq<bool>, p: int, k: u64, j: int)
    requires
        at(b, p, unary(k)),
        k <= MAX_UNARY_ZEROS,
        0 <= j <= k,
    ensures
        zeros_from(pack_bits(b), p, j) == Some(k as int),
    decreases k - j,
{
    let s = pack_bits(b);
    let u = unary(k);
    lemma_pack_len(b);
    assert(b[p + j] == u[j]);
    lemma_sbit_pack(b, p + j);
    if j < k {
        assert(u[j] == false);
        lemma_zeros_from(b, p, k, j + 1);
    } else {
        assert(u[j] == true);
    }
}

proof fn lemma_split_bv(d: u64, f: u64, lm: u64)
    by (bit_vector)
    requires
        f < 64,
        lm == ((1u64 << f) - 1) as u64,
    ensures
        ((d >> f) << f) | (d & lm) == d,
        (d & lm) >> f == 0,
        d >> f <= d,
        ((d >> 0u64) << 0u64) | 0u64 == d,
{
}

proof fn lemma_width_bv(d: u64)
    by (bit_vector)
    ensures
        d <= 0xFFu64 ==> d >> 8u64 == 0,
        d <= 0xFFFFu64 ==> d >> 16u64 == 0,
        d <= 0xFFFF_FFFFu64 ==> d >> 32u64 == 0,
{
}

/// One coded pixel decodes to the pixel.
proof fn lemma_pixel(b: Seq<bool>, p: int, last: u64, cur: u64, x: i64, fs: int, fsmax: int, bbits: int, bytepix: int)
    requires
        bytepix == 1 || bytepix == 2 || bytepix == 4,
        bbits == 8 * bytepix,
        0 < fsmax < 32,
        -1 <= fs <= fsmax,
        last <= spec_width_mask(bytepix),
        cur <= spec_width_mask(bytepix),
        ({
            let d = spec_zigzag(cur.wrapping_sub(last) & spec_width_mask(bytepix), spec_width_mask(bytepix));
            &&& at(b, p, pix_code(d, fs, fsmax, bbits))
            &&& fs < 0 ==> d == 0
            &&& 0 <= fs < fsmax ==> d >> (fs as u64) <= MAX_UNARY_ZEROS
        }),
        spec_sign_extend(cur, bytepix) == x,
    ensures
        ({
            let d = spec_zigzag(cur.wrapping_sub(last) & spec_width_mask(bytepix), spec_width_mask(bytepix));
            block_pixel(pack_bits(b), p, last, fs, fsmax, bbits, bytepix) == Some(
                (p + pix_code(d, fs, fsmax, bbits).len(), cur, x),
            )
        }),
{
    let mask = spec_width_mask(bytepix);
    let d = spec_zigzag(cur.wrapping_sub(last) & mask, mask);
    let s = pack_bits(b);
    lemma_zigzag_inverse(last, cur, mask);
    lemma_pack_len(b);
    lemma_width_bv(d);
    if fs < 0 {
    } else if fs == fsmax {
        lemma_bits_val_pack(b, p, bbits);
        lemma_bseg_at(b, p, bits_of(d, bbits), bbits);
        lemma_bseg_bits_of(d, bbits);
    } else {
        let f = fs as u64;
        let q = d >> f;
        let lo = d & low_mask(fs);
        lemma_split_bv(d, f, low_mask(fs));
        lemma_at_split(b, p, unary(q), bits_of(lo, fs));
        lemma_zeros_from(b, p, q, 0);
        let p1 = p + q + 1;
        assert(unary(q).len() == q + 1);
        if fs > 0 {
            lemma_bits_val_pack(b, p1, fs);
            lemma_bseg_at(b, p1, bits_of(lo, fs), fs);
            lemma_bseg_bits_of(lo, fs);
            assert(bits_val(s, p1, fs) as u64 == lo);
        }
        assert(((q as int) as u64) == q);
    }
}

// ---------------------------------------------------------------------------
// Decoding one block
// ---------------------------------------------------------------------------

/// The value pixel `k` is coded against: its predecessor, or itself for
/// the first pixel.
pub open spec fn prev_pix(px: Seq<i64>, k: int, mask: u64) -> u64 {
    if k == 0 {
        masked(px[0], mask)
    } else {
        masked(px[k - 1], mask)
    }
}

proof fn lemma_codes_concat(a: Seq<u64>, c: Seq<u64>, fs: int, fsmax: int, bbits: int)
    ensures
        codes_of(a + c, fs, fsmax, bbits) == codes_of(a, fs, fsmax, bbits) + codes_of(c, fs, fsmax, bbits),
    decreases c.len(),
{
    if c.len() == 0 {
        assert(a + c =~= a);
        assert(codes_of(a, fs, fsmax, bbits) + seq![] =~= codes_of(a, fs, fsmax, bbits));
    } else {
        lemma_codes_concat(a, c.drop_last(), fs, fsmax, bbits);
        assert((a + c).drop_last() =~= a + c.drop_last());
        assert((a + c).last() == c.last());
        assert(codes_of(a, fs, fsmax, bbits) + codes_of(c.drop_last(), fs, fsmax, bbits) + pix_code(c.last(), fs, fsmax, bbits)
            =~= codes_of(a, fs, fsmax, bbits) + (codes_of(c.drop_last(), fs, fsmax, bbits) + pix_code(c.last(), fs, fsmax, bbits)));
    }
}

proof fn lemma_masked_bound(x: i64, mask: u64)
    ensures
        masked(x, mask) <= mask,
{
    assert((x as u64) & mask <= mask) by (bit_vector);
}

/// Every mapped difference fits the pixel width.
proof fn lemma_diff_bound(px: Seq<i64>, k: int, bytepix: int)
    requires
        bytepix == 1 || bytepix == 2 || bytepix == 4,
        0 <= k < px.len(),
    ensures
        mapped_diff(px, k, spec_width_mask(bytepix)) <= spec_width_mask(bytepix),
{
    let mask = spec_width_mask(bytepix);
    lemma_masked_bound(px[k], mask);
    lemma_masked_bound(px[0], mask);
    if k > 0 {
        lemma_masked_bound(px[k - 1], mask);
    }
    lemma_zigzag_inverse(prev_pix(px, k, mask), masked(px[k], mask), mask);
}

/// The code of a one-difference block is that difference's code.
proof fn lemma_codes_single(d: u64, fs: int, fsmax: int, bbits: int)
    ensures
        codes_of(seq![d], fs, fsmax, bbits) == pix_code(d, fs, fsmax, bbits),
{
    assert(seq![d].drop_last() =~= Seq::<u64>::empty());
    assert(codes_of(Seq::<u64>::empty(), fs, fsmax, bbits) == Seq::<bool>::empty());
    assert(Seq::<bool>::empty() + pix_code(d, fs, fsmax, bbits) =~= pix_code(d, fs, fsmax, bbits));
}

/// The first pixel of a run decodes, and the rest of the run's codes
/// follow it.
proof fn lemma_block_head(b: Seq<bool>, p: int, px: Seq<i64>, k: int, cnt: int, fs: int, fsmax: int, bbits: int, bytepix: int)
    requires
        bytepix == 1 || bytepix == 2 || bytepix == 4,
        bbits == 8 * bytepix,
        0 < fsmax < 32,
        -1 <= fs <= fsmax,
        0 <= k,
        0 < cnt,
        k + cnt <= px.len(),
        forall|i: int| 0 <= i < px.len() ==> fits_width(#[trigger] px[i], bytepix),
        at(b, p, codes_of(enc_diffs(px, spec_width_mask(bytepix)).subrange(k, k + cnt), fs, fsmax, bbits)),
        fs < 0 ==> enc_diffs(px, spec_width_mask(bytepix))[k] == 0,
        0 <= fs < fsmax ==> enc_diffs(px, spec_width_mask(bytepix))[k] >> (fs as u64) <= MAX_UNARY_ZEROS,
    ensures
        ({
            let dd = enc_diffs(px, spec_width_mask(bytepix));
            let n1 = pix_code(dd[k], fs, fsmax, bbits).len();
            &&& block_pixel(pack_bits(b), p, prev_pix(px, k, spec_width_mask(bytepix)), fs, fsmax, bbits, bytepix)
                == Some((p + n1, masked(px[k], spec_width_mask(bytepix)), px[k]))
            &&& at(b, p + n1, codes_of(dd.subrange(k + 1, k + cnt), fs, fsmax, bbits))
            &&& codes_of(dd.subrange(k, k + cnt), fs, fsmax, bbits).len() == n1 + codes_of(
                dd.subrange(k + 1, k + cnt),
                fs,
                fsmax,
                bbits,
            ).len()
        }),
{
    let mask = spec_width_mask(bytepix);
    let dd = enc_diffs(px, mask);
    let d = dd[k];
    let rest = dd.subrange(k + 1, k + cnt);
    assert(dd.subrange(k, k + cnt) =~= seq![d] + rest);
    lemma_codes_concat(seq![d], rest, fs, fsmax, bbits);
    lemma_codes_single(d, fs, fsmax, bbits);
    lemma_at_split(b, p, pix_code(d, fs, fsmax, bbits), codes_of(rest, fs, fsmax, bbits));
    let last = prev_pix(px, k, mask);
    let cur = masked(px[k], mask);
    assert(fits_width(px[k], bytepix));
    lemma_sign_extend_masked(px[k], bytepix);
    lemma_masked_bound(px[0], mask);
    if k > 0 {
        lemma_masked_bound(px[k - 1], mask);
    }
    assert(d == mapped_diff(px, k, mask));
    lemma_pixel(b, p, last, cur, px[k], fs, fsmax, bbits, bytepix);
}

/// Pixels `k..k + cnt` of one block decode from their codes.
#[verifier::rlimit(60)]
#[verifier::spinoff_prover]
proof fn lemma_block(b: Seq<bool>, p: int, px: Seq<i64>, k: int, cnt: int, fs: int, fsmax: int, bbits: int, bytepix: int)
    requires
        bytepix == 1 || bytepix == 2 || bytepix == 4,
        bbits == 8 * bytepix,
        0 < fsmax < 32,
        -1 <= fs <= fsmax,
        0 <= k,
        0 <= cnt,
        k + cnt <= px.len(),
        forall|i: int| 0 <= i < px.len() ==> fits_width(#[trigger] px[i], bytepix),
        at(b, p, codes_of(enc_diffs(px, spec_width_mask(bytepix)).subrange(k, k + cnt), fs, fsmax, bbits)),
        fs < 0 ==> forall|i: int| k <= i < k + cnt ==> #[trigger] enc_diffs(px, spec_width_mask(bytepix))[i] == 0,
        0 <= fs < fsmax ==> forall|i: int|
            k <= i < k + cnt ==> #[trigger] enc_diffs(px, spec_width_mask(bytepix))[i] >> (fs as u64) <= MAX_UNARY_ZEROS,
    ensures
        rice_block(pack_bits(b), p, prev_pix(px, k, spec_width_mask(bytepix)), cnt, fs, fsmax, bbits, bytepix) == Some(
            (
                p + codes_of(enc_diffs(px, spec_width_mask(bytepix)).subrange(k, k + cnt), fs, fsmax, bbits).len(),
                prev_pix(px, k + cnt, spec_width_mask(bytepix)),
                px.subrange(k, k + cnt),
            ),
        ),
    decreases cnt,
{
    let mask = spec_width_mask(bytepix);
    let dd = enc_diffs(px, mask);
    if cnt == 0 {
        assert(dd.subrange(k, k) =~= Seq::<u64>::empty());
        assert(px.subrange(k, k) =~= Seq::<i64>::empty());
    } else {
        lemma_block_head(b, p, px, k, cnt, fs, fsmax, bbits, bytepix);
        let p1 = p + pix_code(dd[k], fs, fsmax, bbits).len();
        lemma_block(b, p1, px, k + 1, cnt - 1, fs, fsmax, bbits, bytepix);
        assert(seq![px[k]] + px.subrange(k + 1, k + cnt) =~= px.subrange(k, k + cnt));
    }
}

// ---------------------------------------------------------------------------
// What the encoder writes per block
// ---------------------------------------------------------------------------

/// The block mode the decoder reads back for the encoder's split `fs`.
pub open spec fn dec_mode(fs: int, fsmax: int) -> int {
    if fs < 0 {
        -1
    } else if fs >= fsmax {
        fsmax
    } else {
        fs
    }
}

proof fn lemma_raw_codes(blk: Seq<u64>, fsmax: int, bbits: int)
    requires
        0 <= fsmax,
    ensures
        raw_codes(blk, bbits) == codes_of(blk, fsmax, fsmax, bbits),
    decreases blk.len(),
{
    if blk.len() > 0 {
        lemma_raw_codes(blk.drop_last(), fsmax, bbits);
    }
}

proof fn lemma_rice_codes(blk: Seq<u64>, fs: int, fsmax: int, bbits: int)
    requires
        0 <= fs < fsmax,
    ensures
        rice_codes(blk, fs) == codes_of(blk, fs, fsmax, bbits),
    decreases blk.len(),
{
    if blk.len() > 0 {
        lemma_rice_codes(blk.drop_last(), fs, fsmax, bbits);
        let x = blk.last();
        assert(rice_codes(blk.drop_last(), fs) + unary(x >> (fs as u64)) + bits_of(x & low_mask(fs), fs) =~= rice_codes(
            blk.drop_last(),
            fs,
        ) + (unary(x >> (fs as u64)) + bits_of(x & low_mask(fs), fs)));
    }
}

proof fn lemma_zero_codes(blk: Seq<u64>, fsmax: int, bbits: int)
    ensures
        codes_of(blk, -1, fsmax, bbits) == Seq::<bool>::empty(),
    decreases blk.len(),
{
    if blk.len() > 0 {
        lemma_zero_codes(blk.drop_last(), fsmax, bbits);
        assert(Seq::<bool>::empty() + Seq::<bool>::empty() =~= Seq::<bool>::empty());
    }
}

/// A coded block is its mode field followed by the codes of its values.
proof fn lemma_block_bits(blk: Seq<u64>, fs: int, fsbits: int, fsmax: int, bbits: int)
    requires
        0 < fsmax,
    ensures
        block_bits(blk, fs, fsbits, fsmax, bbits) == bits_of((dec_mode(fs, fsmax) + 1) as u64, fsbits) + codes_of(
            blk,
            dec_mode(fs, fsmax),
            fsmax,
            bbits,
        ),
{
    if fs < 0 {
        lemma_zero_codes(blk, fsmax, bbits);
        assert(bits_of(0u64, fsbits) + Seq::<bool>::empty() =~= bits_of(0u64, fsbits));
    } else if fs >= fsmax {
        lemma_raw_codes(blk, fsmax, bbits);
    } else {
        lemma_rice_codes(blk, fs, fsmax, bbits);
    }
}

proof fn lemma_sum_zero(blk: Seq<u64>)
    requires
        seq_sum(blk) == 0,
    ensures
        forall|j: int| 0 <= j < blk.len() ==> #[trigger] blk[j] == 0,
    decreases blk.len(),
{
    if blk.len() > 0 {
        lemma_seq_sum_nonneg(blk.drop_last());
        lemma_sum_zero(blk.drop_last());
        assert forall|j: int| 0 <= j < blk.len() implies #[trigger] blk[j] == 0 by {
            if j < blk.len() - 1 {
                assert(blk.drop_last()[j] == blk[j]);
            }
        }
    }
}

proof fn lemma_seq_sum_nonneg(blk: Seq<u64>)
    ensures
        seq_sum(blk) >= 0,
    decreases blk.len(),
{
    if blk.len() > 0 {
        lemma_seq_sum_nonneg(blk.drop_last());
    }
}

/// Each entry is at most the sum.
proof fn lemma_elem_le_sum(blk: Seq<u64>, j: int)
    requires
        0 <= j < blk.len(),
    ensures
        blk[j] <= seq_sum(blk),
    decreases blk.len(),
{
    lemma_seq_sum_nonneg(blk.drop_last());
    if j < blk.len() - 1 {
        lemma_elem_le_sum(blk.drop_last(), j);
        assert(blk.drop_last()[j] == blk[j]);
    }
}

/// Each unary quotient is at most their total.
proof fn lemma_unary_each(blk: Seq<u64>, fs: int)
    ensures
        forall|j: int| 0 <= j < blk.len() ==> (#[trigger] blk[j] >> (fs as u64)) <= unary_sum(blk, fs),
        unary_sum(blk, fs) >= 0,
    decreases blk.len(),
{
    if blk.len() > 0 {
        lemma_unary_each(blk.drop_last(), fs);
        assert forall|j: int| 0 <= j < blk.len() implies (#[trigger] blk[j] >> (fs as u64)) <= unary_sum(blk, fs) by {
            if j < blk.len() - 1 {
                assert(blk.drop_last()[j] == blk[j]);
            }
        }
    }
}

/// A number is below two to the power of its bit length.
proof fn lemma_pow2_bit_len(y: int)
    requires
        y >= 0,
    ensures
        bit_len(y) >= 0,
        vstd::arithmetic::power2::pow2(bit_len(y) as nat) > y,
    decreases y,
{
    if y == 0 {
        vstd::arithmetic::power2::lemma_pow2_pos(0);
    } else {
        lemma_pow2_bit_len(y / 2);
        let k = bit_len(y / 2);
        vstd::arithmetic::power2::lemma_pow2_unfold((k + 1) as nat);
        assert(((k + 1) as nat - 1) as nat == k as nat);
    }
}

/// With the split the encoder picks from the block's mean, every unary
/// quotient is at most three times the block length.
proof fn lemma_quotient_bound(blk: Seq<u64>, j: int)
    requires
        0 <= j < blk.len(),
        seq_sum(blk) > 0,
    ensures
        ({
            let this = blk.len() as int;
            let h = this / 2 + 1;
            let psum = seq_sum(blk);
            let mean = if psum >= h { (psum - h) / this } else { 0 };
            let f = bit_len(mean / 2);
            &&& 0 <= f
            &&& f < 64 ==> blk[j] >> (f as u64) <= 3 * this
        }),
{
    let this = blk.len() as int;
    let h = this / 2 + 1;
    let psum = seq_sum(blk);
    lemma_seq_sum_nonneg(blk);
    lemma_elem_le_sum(blk, j);
    let mean = if psum >= h { (psum - h) / this } else { 0 };
    assert(mean >= 0) by (nonlinear_arith)
        requires mean == (if psum >= h { (psum - h) / this } else { 0 }), this >= 1, psum >= 0;
    let f = bit_len(mean / 2);
    lemma_pow2_bit_len(mean / 2);
    let pp = vstd::arithmetic::power2::pow2(f as nat) as int;
    let x = blk[j] as int;
    if f < 64 {
        vstd::bits::lemma_u64_shr_is_div(blk[j], f as u64);
        assert(psum < (mean + 1) * this + h) by (nonlinear_arith)
            requires mean == (if psum >= h { (psum - h) / this } else { 0 }), this >= 1, psum >= 0, h >= 1;
        assert(2 * pp >= mean + 1) by (nonlinear_arith)
            requires pp > mean / 2, mean >= 0;
        assert(x / pp <= 3 * this) by (nonlinear_arith)
            requires x <= psum, psum < (mean + 1) * this + h, 2 * pp >= mean + 1, pp >= 1, h == this / 2 + 1,
                this >= 1, x >= 0, mean >= 0;
    }
}

/// Every unary quotient the encoder writes for the blocks of `d` from
/// `i` on is within the decoder's limit on a unary run.
pub open spec fn quotients_fit_from(d: Seq<u64>, i: int, blocksize: int, fsmax: int, bbits: int) -> bool
    decreases d.len() - i,
{
    if blocksize <= 0 || i >= d.len() {
        true
    } else {
        let imax = if i + blocksize < d.len() { i + blocksize } else { d.len() as int };
        &&& block_quotients_fit(d.subrange(i, imax), fsmax, bbits)
        &&& quotients_fit_from(d, imax, blocksize, fsmax, bbits)
    }
}

/// Every unary quotient the encoder writes for `block` is within the
/// decoder's limit on a unary run.
pub open spec fn block_quotients_fit(block: Seq<u64>, fsmax: int, bbits: int) -> bool {
    let m = dec_mode(choose_fs(block, fsmax, bbits), fsmax);
    0 <= m < fsmax ==> forall|j: int| 0 <= j < block.len() ==> #[trigger] block[j] >> (m as u64) <= MAX_UNARY_ZEROS
}

/// Every unary quotient [`crate::rice::encode`] writes for `px` is at most
/// [`MAX_UNARY_ZEROS`], the longest unary run the decoder reads.
pub open spec fn rice_quotients_fit(px: Seq<i64>, bytepix: int, blocksize: int) -> bool {
    match rice_params(bytepix) {
        None => true,
        Some((fsbits, fsmax)) => quotients_fit_from(
            enc_diffs(px, spec_width_mask(bytepix)),
            0,
            blocksize,
            fsmax,
            pow2_u64(fsbits),
        ),
    }
}

/// What the encoder's mode choice guarantees the decoder: an all-zero
/// block for mode `-1`, and unary quotients within the decoder's limit for
/// a Rice-coded block.
proof fn lemma_choose_fs(blk: Seq<u64>, fsmax: int, bbits: int, bytepix: int, blocksize: int)
    requires
        bytepix == 1 || bytepix == 2 || bytepix == 4,
        bbits == 8 * bytepix,
        0 < fsmax < 64,
        0 < blk.len() <= blocksize,
        forall|j: int| 0 <= j < blk.len() ==> #[trigger] blk[j] <= spec_width_mask(bytepix),
    ensures
        ({
            let m = dec_mode(choose_fs(blk, fsmax, bbits), fsmax);
            &&& m < 0 ==> forall|j: int| 0 <= j < blk.len() ==> #[trigger] blk[j] == 0
            &&& (bytepix != 4 || 3 * blocksize <= MAX_UNARY_ZEROS) ==> (0 <= m < fsmax ==> forall|j: int|
                0 <= j < blk.len() ==> #[trigger] blk[j] >> (m as u64) <= MAX_UNARY_ZEROS)
        }),
{
    let fs = choose_fs(blk, fsmax, bbits);
    let m = dec_mode(fs, fsmax);
    if seq_sum(blk) == 0 {
        lemma_sum_zero(blk);
    } else {
        lemma_seq_sum_nonneg(blk);
        lemma_bit_len_nonneg(0);
        let this = blk.len() as int;
        let h = this / 2 + 1;
        let mean = if seq_sum(blk) >= h { (seq_sum(blk) - h) / this } else { 0 };
        lemma_bit_len_nonneg(mean / 2);
        assert(fs >= 0);
        if 0 <= m < fsmax && (bytepix != 4 || 3 * blocksize <= MAX_UNARY_ZEROS) {
            lemma_unary_each(blk, m);
            assert forall|j: int| 0 <= j < blk.len() implies #[trigger] blk[j] >> (m as u64) <= MAX_UNARY_ZEROS by {
                let x = blk[j];
                let sh = m as u64;
                assert(x >> sh <= x) by (bit_vector);
                if bytepix != 4 {
                    assert(x <= spec_width_mask(bytepix));
                } else {
                    lemma_quotient_bound(blk, j);
                    assert(m == bit_len(mean / 2));
                    assert(m < 64);
                    assert(3 * this <= 3 * blocksize);
                }
            }
        }
    }
}

proof fn lemma_bit_len_nonneg(x: int)
    ensures
        bit_len(x) >= 0,
    decreases x,
{
    if x > 0 {
        lemma_bit_len_nonneg(x / 2);
    }
}

// ---------------------------------------------------------------------------
// The whole tile
// ---------------------------------------------------------------------------

proof fn lemma_mode_field_bv(v: u64)
    by (bit_vector)
    ensures
        v <= 7 ==> v >> 3u64 == 0,
        v <= 15 ==> v >> 4u64 == 0,
        v <= 31 ==> v >> 5u64 == 0,
{
}

/// The blocks from pixel `i` on decode from their codes.
#[verifier::rlimit(60)]
#[verifier::spinoff_prover]
proof fn lemma_blocks(b: Seq<bool>, p: int, px: Seq<i64>, i: int, bytepix: int, blocksize: int)
    requires
        bytepix == 1 || bytepix == 2 || bytepix == 4,
        blocksize > 0,
        quotients_fit_from(
            enc_diffs(px, spec_width_mask(bytepix)),
            i,
            blocksize,
            rice_params(bytepix)->Some_0.1,
            pow2_u64(rice_params(bytepix)->Some_0.0),
        ),
        0 <= i <= px.len(),
        forall|k: int| 0 <= k < px.len() ==> fits_width(#[trigger] px[k], bytepix),
        at(
            b,
            p,
            enc_from(
                enc_diffs(px, spec_width_mask(bytepix)),
                i,
                blocksize,
                rice_params(bytepix)->Some_0.0,
                rice_params(bytepix)->Some_0.1,
                pow2_u64(rice_params(bytepix)->Some_0.0),
            ),
        ),
    ensures
        rice_blocks(pack_bits(b), p, i, px.len() as int, prev_pix(px, i, spec_width_mask(bytepix)), bytepix, blocksize)
            == Some(px.subrange(i, px.len() as int)),
    decreases px.len() - i,
{
    let nx = px.len() as int;
    if i >= nx {
        assert(px.subrange(i, nx) =~= Seq::<i64>::empty());
    } else {
        let mask = spec_width_mask(bytepix);
        let fsbits = rice_params(bytepix)->Some_0.0;
        let fsmax = rice_params(bytepix)->Some_0.1;
        let bbits = pow2_u64(fsbits);
        assert(bbits == 8 * bytepix) by {
            reveal_with_fuel(pow2_u64, 6);
        }
        let dd = enc_diffs(px, mask);
        let imax = if i + blocksize < nx { i + blocksize } else { nx };
        let blk = dd.subrange(i, imax);
        let fs = choose_fs(blk, fsmax, bbits);
        let m = dec_mode(fs, fsmax);
        let codes = codes_of(blk, m, fsmax, bbits);
        let field = bits_of((m + 1) as u64, fsbits);
        let tail = enc_from(dd, imax, blocksize, fsbits, fsmax, bbits);
        assert(enc_from(dd, i, blocksize, fsbits, fsmax, bbits) == block_bits(blk, fs, fsbits, fsmax, bbits) + tail);
        lemma_block_bits(blk, fs, fsbits, fsmax, bbits);
        lemma_at_split(b, p, block_bits(blk, fs, fsbits, fsmax, bbits), tail);
        lemma_at_split(b, p, field, codes);
        assert(field.len() == fsbits);
        lemma_pack_len(b);
        lemma_bits_val_pack(b, p, fsbits);
        lemma_bseg_at(b, p, field, fsbits);
        lemma_mode_field_bv((m + 1) as u64);
        lemma_bseg_bits_of((m + 1) as u64, fsbits);
        assert(bits_val(pack_bits(b), p, fsbits) - 1 == m);
        assert forall|j: int| 0 <= j < blk.len() implies #[trigger] blk[j] <= mask by {
            lemma_diff_bound(px, i + j, bytepix);
        }
        lemma_choose_fs(blk, fsmax, bbits, bytepix, blocksize);
        assert(block_quotients_fit(blk, fsmax, bbits));
        assert(quotients_fit_from(dd, imax, blocksize, fsmax, bbits));
        assert forall|k: int| i <= k < imax implies (m < 0 ==> #[trigger] dd[k] == 0) && (0 <= m < fsmax ==> dd[k] >> (
        m as u64) <= MAX_UNARY_ZEROS) by {
            assert(blk[k - i] == dd[k]);
        }
        lemma_block(b, p + fsbits, px, i, imax - i, m, fsmax, bbits, bytepix);
        let p2 = p + fsbits + codes.len();
        lemma_blocks(b, p2, px, imax, bytepix, blocksize);
        assert(px.subrange(i, imax) + px.subrange(imax, nx) =~= px.subrange(i, nx));
    }
}

/// `RICE_1` round trip: the tile [`crate::rice::encode`] produces for
/// pixels representable at a width of `bytepix` bytes decodes, through
/// [`crate::rice::decode`], to the same pixels, whenever no unary quotient
/// it writes is longer than the decoder's limit on a unary run (for one-
/// and two-byte pixels always; see [`lemma_rice_quotients_fit`]).
pub proof fn lemma_rice_roundtrip(px: Seq<i64>, bytepix: int, blocksize: int)
    requires
        bytepix == 1 || bytepix == 2 || bytepix == 4,
        blocksize > 0,
        rice_quotients_fit(px, bytepix, blocksize),
        forall|i: int| 0 <= i < px.len() ==> fits_width(#[trigger] px[i], bytepix),
    ensures
        spec_rice_encode(px, bytepix, blocksize) matches Some(bytes) && spec_rice_decode(
            bytes,
            px.len() as int,
            bytepix,
            blocksize,
        ) == Some(px),
{
    if px.len() == 0 {
        assert(Seq::<i64>::empty() =~= px);
    } else {
        let mask = spec_width_mask(bytepix);
        let fsbits = rice_params(bytepix)->Some_0.0;
        let fsmax = rice_params(bytepix)->Some_0.1;
        let bb = enc_from(enc_diffs(px, mask), 0, blocksize, fsbits, fsmax, pow2_u64(fsbits));
        let first = masked(px[0], mask);
        assert(fits_width(px[0], bytepix));
        lemma_sign_extend_masked(px[0], bytepix);
        let bytes = be_bytes(first, bytepix) + pack_bits(bb);
        assert(spec_rice_encode(px, bytepix, blocksize) == Some(bytes));
        lemma_be_value(first, bytepix, pack_bits(bb));
        assert(bytes.subrange(bytepix, bytes.len() as int) =~= pack_bits(bb));
        assert(bb.subrange(0, bb.len() as int) =~= bb);
        lemma_blocks(bb, 0, px, 0, bytepix, blocksize);
        assert(px.subrange(0, px.len() as int) =~= px);
    }
}

/// The encoder's unary quotients always fit the decoder's limit for one-
/// and two-byte pixels, and for four-byte pixels when the block size is at
/// most a third of that limit: a quotient is at most three times the
/// block length.
pub proof fn lemma_rice_quotients_fit(px: Seq<i64>, bytepix: int, blocksize: int)
    requires
        bytepix == 1 || bytepix == 2 || bytepix == 4,
        blocksize > 0,
        bytepix == 4 ==> 3 * blocksize <= MAX_UNARY_ZEROS,
        forall|i: int| 0 <= i < px.len() ==> fits_width(#[trigger] px[i], bytepix),
    ensures
        rice_quotients_fit(px, bytepix, blocksize),
{
    let fsbits = rice_params(bytepix)->Some_0.0;
    let fsmax = rice_params(bytepix)->Some_0.1;
    let bbits = pow2_u64(fsbits);
    assert(bbits == 8 * bytepix) by {
        reveal_with_fuel(pow2_u64, 6);
    }
    lemma_quotients_fit_from(px, 0, bytepix, blocksize);
}

proof fn lemma_quotients_fit_from(px: Seq<i64>, i: int, bytepix: int, blocksize: int)
    requires
        bytepix == 1 || bytepix == 2 || bytepix == 4,
        blocksize > 0,
        bytepix == 4 ==> 3 * blocksize <= MAX_UNARY_ZEROS,
        0 <= i <= px.len(),
        forall|k: int| 0 <= k < px.len() ==> fits_width(#[trigger] px[k], bytepix),
    ensures
        quotients_fit_from(
            enc_diffs(px, spec_width_mask(bytepix)),
            i,
            blocksize,
            rice_params(bytepix)->Some_0.1,
            pow2_u64(rice_params(bytepix)->Some_0.0),
        ),
    decreases px.len() - i,
{
    let nx = px.len() as int;
    if i < nx {
        let mask = spec_width_mask(bytepix);
        let fsbits = rice_params(bytepix)->Some_0.0;
        let fsmax = rice_params(bytepix)->Some_0.1;
        let bbits = pow2_u64(fsbits);
        assert(bbits == 8 * bytepix) by {
            reveal_with_fuel(pow2_u64, 6);
        }
        let dd = enc_diffs(px, mask);
        let imax = if i + blocksize < nx { i + blocksize } else { nx };
        let blk = dd.subrange(i, imax);
        assert forall|j: int| 0 <= j < blk.len() implies #[trigger] blk[j] <= mask by {
            lemma_diff_bound(px, i + j, bytepix);
        }
        lemma_choose_fs(blk, fsmax, bbits, bytepix, blocksize);
        lemma_quotients_fit_from(px, imax, bytepix, blocksize);
    }
}

} // verus!
