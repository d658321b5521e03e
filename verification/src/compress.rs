//! Tile-compressed images — the FITS tiled-image convention. A compressed
//! image is a `BINTABLE` extension carrying `ZIMAGE = T`. The logical
//! image's geometry lives in `ZBITPIX`/`ZNAXIS`/`ZNAXISn`; it is cut into
//! tiles of `ZTILEn` pixels, each tile compressed independently with
//! `ZCMPTYPE` and stored (in row-major tile order) as one variable-length
//! byte array in the `COMPRESSED_DATA` column.
//!
//! This module holds what the convention decides from plain values: the
//! geometry and codec parameters a header declares, where each tile lies in
//! the image, and how one tile's bytes become pixel values and back.
//! Supported `ZCMPTYPE`: `RICE_1`, `GZIP_1`, `GZIP_2`, `NOCOMPRESS`; any
//! other type returns [`FitsError::UnsupportedCompression`] — never a
//! panic. Floating-point `ZBITPIX` (per-tile quantization) is likewise not
//! supported.

use vstd::prelude::*;
use crate::card::{CardView, ValueView};
use crate::error::{FitsError, is_compression_err};
use crate::header::{BitPix, Header, bitpix_of, bitpix_value, lookup, lookup_i64};
use crate::rice;
use crate::text::{chars_of, dec, push_u64, str_eq, string_from, string_of, trim, trim_end_idx, trim_start_idx};

verus! {

/// The tile codecs a reader accepts.
#[derive(Debug, Clone, Copy, PartialEq, Eq, Structural)]
pub enum CmpType {
    Rice1,
    Gzip1,
    Gzip2,
    NoCompress,
}

/// The codec a `ZCMPTYPE` value (trimmed) names.
pub open spec fn codec_of(raw: Seq<char>) -> Option<CmpType> {
    let t = trim(raw);
    if t == "RICE_1"@ || t == "RICE_ONE"@ {
        Some(CmpType::Rice1)
    } else if t == "GZIP_1"@ {
        Some(CmpType::Gzip1)
    } else if t == "GZIP_2"@ {
        Some(CmpType::Gzip2)
    } else if t == "NOCOMPRESS"@ {
        Some(CmpType::NoCompress)
    } else {
        None
    }
}

/// `s.trim()` as a new string.
fn trimmed_string(s: &str) -> (r: String)
    ensures
        r@ == trim(s@),
{
    let cs = chars_of(s);
    let b = trim_start_idx(&cs, 0, cs.len());
    let e = trim_end_idx(&cs, b, cs.len());
    let r = string_of(&cs, b, e);
    proof {
        assert(cs@.subrange(0, cs@.len() as int) =~= s@);
        assert(r@ =~= trim(s@));
    }
    r
}

impl CmpType {
    pub fn parse(raw: &str) -> (r: Result<CmpType, FitsError>)
        ensures
            match codec_of(raw@) {
                Some(c) => r == Ok::<CmpType, FitsError>(c),
                None => r matches Err(e) && e is UnsupportedCompression,
            },
    {
        let t = trimmed_string(raw);
        if str_eq(t.as_str(), "RICE_1") || str_eq(t.as_str(), "RICE_ONE") {
            Ok(CmpType::Rice1)
        } else if str_eq(t.as_str(), "GZIP_1") {
            Ok(CmpType::Gzip1)
        } else if str_eq(t.as_str(), "GZIP_2") {
            Ok(CmpType::Gzip2)
        } else if str_eq(t.as_str(), "NOCOMPRESS") {
            Ok(CmpType::NoCompress)
        } else {
            Err(FitsError::UnsupportedCompression(t))
        }
    }
}

/// The compression algorithm for writing tile-compressed images.
#[derive(Debug, Clone, Copy, PartialEq, Eq, Structural)]
pub enum CompAlgo {
    Rice1,
    Gzip1,
}

// ---------------------------------------------------------------------------
// Geometry declared by a compressed-image header
// ---------------------------------------------------------------------------

/// The geometry and codec parameters of a tile-compressed image.
#[derive(Debug, Clone)]
pub struct CompressedGeometry {
    /// The logical image `BITPIX` (`ZBITPIX`).
    pub bitpix: BitPix,
    /// `ZNAXISn`, fastest-varying axis first.
    pub shape: Vec<usize>,
    /// `ZTILEn`.
    pub tile_shape: Vec<usize>,
    /// Number of tiles along each axis.
    pub tiles_per_axis: Vec<usize>,
    pub cmptype: CmpType,
    /// `RICE_1` `BLOCKSIZE`.
    pub rice_blocksize: usize,
    /// `RICE_1` `BYTEPIX`.
    pub rice_bytepix: usize,
}

/// Why a header does not describe a readable compressed image.
pub enum GeometryError {
    NotCompressed,
    NoBitpix,
    BadBitpix(i64),
    FloatBitpix,
    NoAxisCount,
    MissingAxis,
    NoCodec,
    BadCodec,
}

/// What a compressed image declares: bitpix, shape, tile shape, codec,
/// Rice block size and Rice pixel width.
pub type GeometryView = (BitPix, Seq<usize>, Seq<usize>, CmpType, usize, usize);

pub open spec fn usize_of(v: Option<i64>) -> Option<usize> {
    match v {
        Some(x) => if 0 <= x <= usize::MAX { Some(x as usize) } else { None },
        None => None,
    }
}

/// `ZNAXISi..ZNAXIS{count}` and the matching tile lengths: `ZTILEi`,
/// defaulting to the whole first axis and one on the others, clamped to
/// `1..=max(axis, 1)`.
pub open spec fn axes_and_tiles(h: Seq<CardView>, count: int, i: int) -> Option<(Seq<usize>, Seq<usize>)>
    decreases count + 1 - i,
{
    if i < 1 || i > count {
        Some((seq![], seq![]))
    } else {
        match usize_of(lookup_i64(h, "ZNAXIS"@ + dec(i as nat))) {
            None => None,
            Some(axis) => {
                let def: usize = if i == 1 { axis } else { 1 };
                let t0: usize = match usize_of(lookup_i64(h, "ZTILE"@ + dec(i as nat))) {
                    Some(t) => t,
                    None => def,
                };
                let t1: usize = if t0 > 1 { t0 } else { 1 };
                let amax: usize = if axis > 1 { axis } else { 1 };
                let tile: usize = if t1 < amax { t1 } else { amax };
                match axes_and_tiles(h, count, i + 1) {
                    None => None,
                    Some((s, ts)) => Some((seq![axis] + s, seq![tile] + ts)),
                }
            },
        }
    }
}

/// Tiles along an axis of `a` pixels cut into tiles of `t`.
pub open spec fn tiles_along(a: int, t: int) -> int {
    let tt = if t > 1 { t } else { 1 };
    let q = (a + tt - 1) / tt;
    if q > 1 { q } else { 1 }
}

pub open spec fn spec_tiles_per_axis(shape: Seq<usize>, tiles: Seq<usize>) -> Seq<usize> {
    Seq::new(shape.len(), |k: int| tiles_along(shape[k] as int, tiles[k] as int) as usize)
}

/// The Rice `(BLOCKSIZE, BYTEPIX)` after reading `ZNAMEn`/`ZVALn` pairs from
/// `n` on, for as long as `ZNAMEn` is a string card (at most one pair per
/// card of the header).
pub open spec fn rice_scan(h: Seq<CardView>, n: int, bs: usize, bp: usize) -> (usize, usize)
    decreases h.len() + 1 - n,
{
    if n < 1 || n > h.len() {
        (bs, bp)
    } else {
        match lookup(h, "ZNAME"@ + dec(n as nat)) {
            Some(c) => match c.1 {
                ValueView::String(name) => {
                    let val = usize_of(lookup_i64(h, "ZVAL"@ + dec(n as nat)));
                    let t = trim(name);
                    let bs2 = if t == "BLOCKSIZE"@ && val is Some { val->Some_0 } else { bs };
                    let bp2 = if t == "BYTEPIX"@ && val is Some { val->Some_0 } else { bp };
                    rice_scan(h, n + 1, bs2, bp2)
                },
                _ => (bs, bp),
            },
            None => (bs, bp),
        }
    }
}

pub open spec fn spec_bpp(b: BitPix) -> int {
    (if bitpix_value(b) < 0 { -bitpix_value(b) } else { bitpix_value(b) }) / 8
}

/// The bitpix, shape and tile shape a compressed-image header declares.
pub open spec fn geometry_head(h: Seq<CardView>) -> Result<(BitPix, Seq<usize>, Seq<usize>), GeometryError> {
    let zimage = match lookup(h, "ZIMAGE"@) {
        Some(c) => match c.1 {
            ValueView::Logical(b) => b,
            _ => false,
        },
        None => false,
    };
    if !zimage {
        Err(GeometryError::NotCompressed)
    } else {
        match lookup_i64(h, "ZBITPIX"@) {
            None => Err(GeometryError::NoBitpix),
            Some(zb) => match bitpix_of(zb as int) {
                None => Err(GeometryError::BadBitpix(zb)),
                Some(bitpix) => if bitpix is F32 || bitpix is F64 {
                    Err(GeometryError::FloatBitpix)
                } else {
                    match usize_of(lookup_i64(h, "ZNAXIS"@)) {
                        None => Err(GeometryError::NoAxisCount),
                        Some(count) => match axes_and_tiles(h, count as int, 1) {
                            None => Err(GeometryError::MissingAxis),
                            Some((shape, tiles)) => Ok((bitpix, shape, tiles)),
                        },
                    }
                },
            },
        }
    }
}

/// The Rice `(BLOCKSIZE, BYTEPIX)` a header declares for an image of
/// `bitpix`.
pub open spec fn rice_params_of(h: Seq<CardView>, bitpix: BitPix) -> (usize, usize) {
    rice_scan(h, 1, 32, (if spec_bpp(bitpix) > 1 { spec_bpp(bitpix) } else { 1 }) as usize)
}

/// What a compressed-image header declares.
pub open spec fn geometry_of(h: Seq<CardView>) -> Result<GeometryView, GeometryError> {
    match geometry_head(h) {
        Err(e) => Err(e),
        Ok((bitpix, shape, tiles)) => match lookup(h, "ZCMPTYPE"@) {
            Some(c) => match c.1 {
                ValueView::String(ct) => match codec_of(ct) {
                    None => Err(GeometryError::BadCodec),
                    Some(codec) => {
                        let (bs, bp) = rice_params_of(h, bitpix);
                        Ok((bitpix, shape, tiles, codec, bs, bp))
                    },
                },
                _ => Err(GeometryError::NoCodec),
            },
            None => Err(GeometryError::NoCodec),
        },
    }
}

/// A key `prefix` followed by the decimal digits of `n`.
fn indexed_key(prefix: &str, n: usize) -> (k: String)
    ensures
        k@ == prefix@ + dec(n as nat),
{
    let mut k = string_from(prefix);
    push_u64(&mut k, n as u64);
    k
}

pub(crate) fn as_usize(v: Option<i64>) -> (r: Option<usize>)
    ensures
        r == usize_of(v),
{
    match v {
        Some(x) => if x >= 0 && (x as u64) <= (usize::MAX as u64) { Some(x as usize) } else { None },
        None => None,
    }
}


/// `ZNAXIS1..ZNAXIS{znaxis}` and the tile lengths (see [`axes_and_tiles`]).
fn read_axes(header: &Header, znaxis: usize) -> (r: Result<(Vec<usize>, Vec<usize>), FitsError>)
    ensures
        match axes_and_tiles(header@, znaxis as int, 1) {
            Some((s, ts)) => r matches Ok(x) && x.0@ == s && x.1@ == ts && s.len() == ts.len(),
            None => r matches Err(e) && e is Processing,
        },
{
    let ghost h = header@;
    let mut shape: Vec<usize> = Vec::new();
    let mut tile_shape: Vec<usize> = Vec::new();
    let mut k: usize = 0;
    while k < znaxis
        invariant
            h == header@,
            k <= znaxis,
            shape@.len() == k,
            tile_shape@.len() == k,
            axes_and_tiles(h, znaxis as int, 1) == match axes_and_tiles(h, znaxis as int, k + 1) {
                None => None,
                Some((s, ts)) => Some((shape@ + s, tile_shape@ + ts)),
            },
        decreases znaxis - k,
    {
        let n = k + 1;
        let axis = match as_usize(header.get_i64(indexed_key("ZNAXIS", n).as_str())) {
            Some(a) => a,
            None => {
                return Err(FitsError::Processing(string_from("missing ZNAXISn")));
            },
        };
        let def: usize = if n == 1 { axis } else { 1 };
        let t0 = match as_usize(header.get_i64(indexed_key("ZTILE", n).as_str())) {
            Some(t) => t,
            None => def,
        };
        let t1: usize = if t0 > 1 { t0 } else { 1 };
        let amax: usize = if axis > 1 { axis } else { 1 };
        let tile: usize = if t1 < amax { t1 } else { amax };
        let ghost s0 = shape@;
        let ghost t0s = tile_shape@;
        shape.push(axis);
        tile_shape.push(tile);
        proof {
            match axes_and_tiles(h, znaxis as int, n + 1) {
                None => {},
                Some((s, ts)) => {
                    assert(s0 + (seq![axis] + s) =~= shape@ + s);
                    assert(t0s + (seq![tile] + ts) =~= tile_shape@ + ts);
                },
            }
        }
        k = n;
    }
    assert(shape@ + Seq::<usize>::empty() =~= shape@);
    assert(tile_shape@ + Seq::<usize>::empty() =~= tile_shape@);
    Ok((shape, tile_shape))
}

/// The Rice `(BLOCKSIZE, BYTEPIX)` from the `ZNAMEn`/`ZVALn` pairs (see
/// [`rice_scan`]).
fn read_rice_params(header: &Header, bitpix: BitPix) -> (r: (usize, usize))
    ensures
        r == rice_params_of(header@, bitpix),
{
    let ghost h = header@;
    let bp0 = bitpix.bytes_per_pixel();
    let mut rice_blocksize: usize = 32;
    let mut rice_bytepix: usize = if bp0 > 1 { bp0 } else { 1 };
    let ncards = header.cards().len();
    let mut k: usize = 0;
    while k < ncards
        invariant
            h == header@,
            ncards == h.len(),
            k <= ncards,
            rice_scan(h, 1, 32, (if spec_bpp(bitpix) > 1 { spec_bpp(bitpix) } else { 1 }) as usize)
                == rice_scan(h, k + 1, rice_blocksize, rice_bytepix),
        ensures
            rice_scan(h, 1, 32, (if spec_bpp(bitpix) > 1 { spec_bpp(bitpix) } else { 1 }) as usize)
                == (rice_blocksize, rice_bytepix),
        decreases ncards - k,
    {
        let n = k + 1;
        let key = indexed_key("ZNAME", n);
        let name = match header.get_string(key.as_str()) {
            Some(s) => s,
            None => {
                break;
            },
        };
        let ghost (bs0, bp0s) = (rice_blocksize, rice_bytepix);
        let val = as_usize(header.get_i64(indexed_key("ZVAL", n).as_str()));
        let t = trimmed_string(name);
        let is_bs = str_eq(t.as_str(), "BLOCKSIZE");
        let is_bp = str_eq(t.as_str(), "BYTEPIX");
        if is_bs {
            if let Some(v) = val {
                rice_blocksize = v;
            }
        } else if is_bp {
            if let Some(v) = val {
                rice_bytepix = v;
            }
        }
        proof {
            let c = lookup(h, "ZNAME"@ + dec(n as nat))->Some_0;
            let nm = c.1->String_0;
            assert(nm == name@);
            reveal_strlit("BLOCKSIZE");
            reveal_strlit("BYTEPIX");
            assert("BLOCKSIZE"@ != "BYTEPIX"@) by {
                assert("BLOCKSIZE"@.len() != "BYTEPIX"@.len());
            }
            assert(rice_scan(h, n as int, bs0, bp0s) == rice_scan(h, n + 1, rice_blocksize, rice_bytepix));
        }
        k = n;
    }
    (rice_blocksize, rice_bytepix)
}

impl CompressedGeometry {
    pub open spec fn view(&self) -> GeometryView {
        (self.bitpix, self.shape@, self.tile_shape@, self.cmptype, self.rice_blocksize, self.rice_bytepix)
    }

    /// The geometry and codec parameters a tile-compressed image header
    /// declares: `ZIMAGE = T` is required, `ZBITPIX` must be an integer
    /// type, `ZNAXIS` and every `ZNAXISn` must be present, and `ZCMPTYPE`
    /// must name a supported codec. `RICE_1` parameters come from the
    /// `ZNAMEn`/`ZVALn` pairs, defaulting to a block size of 32 and the
    /// image's pixel width.
    pub fn from_header(header: &Header) -> (r: Result<CompressedGeometry, FitsError>)
        ensures
            match geometry_of(header@) {
                Ok(g) => r matches Ok(x) && x.view() == g && x.tiles_per_axis@ == spec_tiles_per_axis(g.1, g.2),
                Err(GeometryError::BadBitpix(v)) => r == Err::<CompressedGeometry, FitsError>(FitsError::InvalidBitpix(v)),
                Err(GeometryError::FloatBitpix) => is_compression_err(r),
                Err(GeometryError::BadCodec) => is_compression_err(r),
                Err(_) => r matches Err(e) && e is Processing,
            },
    {
        let ghost h = header@;
        let zimage = match header.get_bool("ZIMAGE") {
            Some(b) => b,
            None => false,
        };
        if !zimage {
            return Err(FitsError::Processing(string_from("HDU is a BINTABLE but not a tile-compressed image (no ZIMAGE = T)")));
        }
        let zb = match header.get_i64("ZBITPIX") {
            Some(v) => v,
            None => {
                return Err(FitsError::Processing(string_from("compressed image has no ZBITPIX")));
            },
        };
        let bitpix = BitPix::from_i64(zb)?;
        if bitpix == BitPix::F32 || bitpix == BitPix::F64 {
            return Err(FitsError::UnsupportedCompression(string_from(
                "floating-point tile compression (per-tile quantization) is not supported",
            )));
        }
        let znaxis = match as_usize(header.get_i64("ZNAXIS")) {
            Some(n) => n,
            None => {
                return Err(FitsError::Processing(string_from("compressed image has no ZNAXIS")));
            },
        };
        let (shape, tile_shape) = read_axes(header, znaxis)?;
        let tiles_per_axis = tiles_per_axis(&shape, &tile_shape);
        let ct = match header.get_string("ZCMPTYPE") {
            Some(s) => s,
            None => {
                return Err(FitsError::Processing(string_from("compressed image has no ZCMPTYPE")));
            },
        };
        let codec = CmpType::parse(ct)?;
        let (rice_blocksize, rice_bytepix) = read_rice_params(header, bitpix);
        Ok(CompressedGeometry {
            bitpix,
            shape,
            tile_shape,
            tiles_per_axis,
            cmptype: codec,
            rice_blocksize,
            rice_bytepix,
        })
    }
}

/// Number of tiles along each axis.
pub fn tiles_per_axis(shape: &Vec<usize>, tile_shape: &Vec<usize>) -> (r: Vec<usize>)
    requires
        shape@.len() == tile_shape@.len(),
    ensures
        r@ == spec_tiles_per_axis(shape@, tile_shape@),
{
    let mut r: Vec<usize> = Vec::new();
    let mut k: usize = 0;
    while k < shape.len()
        invariant
            k <= shape@.len() == tile_shape@.len(),
            r@ == spec_tiles_per_axis(shape@, tile_shape@).subrange(0, k as int),
        decreases shape.len() - k,
    {
        let a = shape[k];
        let t: usize = if tile_shape[k] > 1 { tile_shape[k] } else { 1 };
        assert(a % t != 0 ==> a / t < usize::MAX) by (nonlinear_arith)
            requires t >= 1, a >= 0, a <= usize::MAX;
        let q = if a % t == 0 { a / t } else { a / t + 1 };
        assert(q as int == (a as int + t as int - 1) / (t as int)) by (nonlinear_arith)
            requires t >= 1, a >= 0, q as int == a as int / t as int + (if a as int % t as int == 0 { 0int } else { 1int });
        r.push(if q > 1 { q } else { 1 });
        k = k + 1;
        assert(r@ =~= spec_tiles_per_axis(shape@, tile_shape@).subrange(0, k as int));
    }
    assert(spec_tiles_per_axis(shape@, tile_shape@).subrange(0, shape@.len() as int) =~= spec_tiles_per_axis(shape@, tile_shape@));
    r
}

} // verus!
