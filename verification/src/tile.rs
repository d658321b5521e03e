//! Tiles of a tile-compressed image: where each tile lies in the image,
//! which tiles a region touches, which image pixels a tile holds, and how a
//! tile's stored bytes become pixel values (and back).

use vstd::prelude::*;
use crate::compress::spec_tiles_per_axis;
use crate::header::BitPix;
use crate::rice::{be_bytes, be_value, spec_rice_decode, spec_rice_encode};
use crate::compress::{CmpType, CompAlgo};
use crate::error::{FitsError, is_compression_err};
use crate::text::{push_str, string_from};
use std::io::{Read, Write};

verus! {

/// Product of the entries of `s` (one for an empty sequence).
pub open spec fn prod(s: Seq<usize>) -> int
    decreases s.len(),
{
    if s.len() == 0 {
        1
    } else {
        prod(s.drop_last()) * s.last()
    }
}

/// Coordinate along axis `k` of the cell with linear index `idx` in a grid
/// of extents `ext`, axis 0 varying fastest.
pub open spec fn coord_of(idx: int, ext: Seq<usize>, k: int) -> int {
    (idx / prod(ext.subrange(0, k))) % (ext[k] as int)
}

pub open spec fn min_int(a: int, b: int) -> int {
    if a < b { a } else { b }
}

/// Where tile `tile` starts along axis `k`.
pub open spec fn tile_origin(tile: int, tile_shape: Seq<usize>, tpa: Seq<usize>, k: int) -> int {
    coord_of(tile, tpa, k) * tile_shape[k]
}

/// The extent of tile `tile` along axis `k`: the tile size, cut at the
/// image edge.
pub open spec fn tile_dim(tile: int, shape: Seq<usize>, tile_shape: Seq<usize>, tpa: Seq<usize>, k: int) -> int {
    min_int(tile_shape[k] as int, shape[k] - tile_origin(tile, tile_shape, tpa, k))
}

/// Shape and tile shape of a tiled image: equal lengths, tiles at least one
/// pixel wide, and the tile counts they imply.
pub open spec fn tiling_ok(shape: Seq<usize>, tile_shape: Seq<usize>, tpa: Seq<usize>) -> bool {
    &&& shape.len() == tile_shape.len()
    &&& forall|k: int| 0 <= k < tile_shape.len() ==> #[trigger] tile_shape[k] >= 1
    &&& tpa == spec_tiles_per_axis(shape, tile_shape)
}

/// The position and extent of one tile.
#[derive(Debug, Clone)]
pub struct TileGeometry {
    /// First pixel of the tile along each axis.
    pub origin: Vec<usize>,
    /// Extent of the tile along each axis.
    pub dims: Vec<usize>,
    /// Number of pixels in the tile.
    pub pixels: usize,
}

pub(crate) proof fn lemma_prod_nonneg(s: Seq<usize>)
    ensures
        prod(s) >= 0,
    decreases s.len(),
{
    if s.len() > 0 {
        lemma_prod_nonneg(s.drop_last());
        vstd::arithmetic::mul::lemma_mul_nonnegative(prod(s.drop_last()), s.last() as int);
    }
}

pub(crate) proof fn lemma_prod_pos(s: Seq<usize>)
    requires
        forall|k: int| 0 <= k < s.len() ==> #[trigger] s[k] >= 1,
    ensures
        prod(s) >= 1,
    decreases s.len(),
{
    if s.len() > 0 {
        assert forall|k: int| 0 <= k < s.drop_last().len() implies #[trigger] s.drop_last()[k] >= 1 by {
            assert(s.drop_last()[k] == s[k]);
        }
        lemma_prod_pos(s.drop_last());
        let a = prod(s.drop_last());
        let b = s.last() as int;
        assert(a * b >= 1) by (nonlinear_arith)
            requires a >= 1, b >= 1;
    }
}

/// Each entry at most its bound makes the product at most theirs.
pub(crate) proof fn lemma_prod_le(s: Seq<usize>, t: Seq<usize>)
    requires
        s.len() == t.len(),
        forall|k: int| 0 <= k < s.len() ==> #[trigger] s[k] <= t[k],
    ensures
        prod(s) <= prod(t),
    decreases s.len(),
{
    if s.len() > 0 {
        lemma_prod_le(s.drop_last(), t.drop_last());
        lemma_prod_nonneg(s.drop_last());
        vstd::arithmetic::mul::lemma_mul_upper_bound(prod(s.drop_last()), prod(t.drop_last()), s.last() as int, t.last() as int);
    }
}

pub(crate) proof fn lemma_prod_push(s: Seq<usize>, k: int)
    requires
        0 <= k < s.len(),
    ensures
        prod(s.subrange(0, k + 1)) == prod(s.subrange(0, k)) * s[k],
{
    assert(s.subrange(0, k + 1).drop_last() =~= s.subrange(0, k));
}

/// The tile count along one axis of a valid tiling.
pub(crate) proof fn lemma_tpa(shape: Seq<usize>, tile_shape: Seq<usize>, k: int)
    requires
        shape.len() == tile_shape.len(),
        0 <= k < shape.len(),
        tile_shape[k] >= 1,
    ensures
        spec_tiles_per_axis(shape, tile_shape)[k] >= 1,
        shape[k] == 0 ==> spec_tiles_per_axis(shape, tile_shape)[k] == 1,
        shape[k] > 0 ==> spec_tiles_per_axis(shape, tile_shape)[k] as int == (shape[k] + tile_shape[k] - 1)
            / (tile_shape[k] as int),
{
    let a = shape[k] as int;
    let t = tile_shape[k] as int;
    let q = (a + t - 1) / t;
    vstd::arithmetic::div_mod::lemma_fundamental_div_mod(a + t - 1, t);
    assert(0 <= (a + t - 1) % t < t) by {
        vstd::arithmetic::div_mod::lemma_mod_bound(a + t - 1, t);
    }
    if a == 0 {
        assert(q == 0) by {
            vstd::arithmetic::div_mod::lemma_basic_div(t - 1, t);
        }
    } else {
        assert(1 <= q <= a) by (nonlinear_arith)
            requires a >= 1, t >= 1, a + t - 1 == t * q + (a + t - 1) % t, 0 <= (a + t - 1) % t < t;
    }
}

/// The tile counts of a valid tiling are all at least one, and a tile's
/// origin lies inside the image when the image is not empty there.
pub(crate) proof fn lemma_tiling_facts(shape: Seq<usize>, tile_shape: Seq<usize>, tpa: Seq<usize>, tile: int, k: int)
    requires
        tiling_ok(shape, tile_shape, tpa),
        0 <= tile,
        0 <= k < shape.len(),
    ensures
        tpa.len() == shape.len(),
        tpa[k] >= 1,
        0 <= coord_of(tile, tpa, k) < tpa[k],
        0 <= tile_origin(tile, tile_shape, tpa, k),
        shape[k] > 0 ==> tile_origin(tile, tile_shape, tpa, k) < shape[k],
        shape[k] == 0 ==> tile_origin(tile, tile_shape, tpa, k) == 0,
        prod(tpa.subrange(0, k)) >= 1,
{
    lemma_tpa(shape, tile_shape, k);
    assert forall|i: int| 0 <= i < k implies #[trigger] tpa.subrange(0, k)[i] >= 1 by {
        lemma_tpa(shape, tile_shape, i);
    }
    lemma_prod_pos(tpa.subrange(0, k));
    let p = prod(tpa.subrange(0, k));
    let c = coord_of(tile, tpa, k);
    let t = tile_shape[k] as int;
    let a = shape[k] as int;
    assert(tile / p >= 0) by (nonlinear_arith)
        requires tile >= 0, p >= 1;
    vstd::arithmetic::div_mod::lemma_mod_bound(tile / p, tpa[k] as int);
    assert(0 <= c < tpa[k]);
    if a > 0 {
        let q = tpa[k] as int;
        vstd::arithmetic::div_mod::lemma_fundamental_div_mod(a + t - 1, t);
        vstd::arithmetic::div_mod::lemma_mod_bound(a + t - 1, t);
        assert(q * t <= a + t - 1) by (nonlinear_arith)
            requires a + t - 1 == t * q + (a + t - 1) % t, 0 <= (a + t - 1) % t;
        assert(c * t <= (q - 1) * t) by (nonlinear_arith)
            requires 0 <= c <= q - 1, t >= 1;
        assert(c * t < a) by (nonlinear_arith)
            requires c * t <= (q - 1) * t, q * t <= a + t - 1, t >= 1;
    } else {
        assert(c == 0);
    }
    assert(c * t >= 0) by (nonlinear_arith)
        requires c >= 0, t >= 1;
}

/// Every tile of a valid tiling lies inside the image.
pub(crate) proof fn lemma_tile_inside(shape: Seq<usize>, tile_shape: Seq<usize>, tpa: Seq<usize>, tile: int, origin: Seq<usize>, dims: Seq<usize>)
    requires
        tiling_ok(shape, tile_shape, tpa),
        0 <= tile,
        origin.len() == shape.len(),
        dims.len() == shape.len(),
        forall|k: int| 0 <= k < shape.len() ==> #[trigger] origin[k] == tile_origin(tile, tile_shape, tpa, k),
        forall|k: int| 0 <= k < shape.len() ==> #[trigger] dims[k] == tile_dim(tile, shape, tile_shape, tpa, k),
    ensures
        tile_inside(origin, dims, shape),
{
    assert forall|k: int| 0 <= k < shape.len() implies origin[k] + dims[k] <= #[trigger] shape[k] by {
        lemma_tiling_facts(shape, tile_shape, tpa, tile, k);
    }
}

/// Where tile `tile` lies: its origin and extent along each axis, and its
/// pixel count.
pub fn tile_geometry(shape: &Vec<usize>, tile_shape: &Vec<usize>, tpa: &Vec<usize>, tile: usize) -> (g: TileGeometry)
    requires
        tiling_ok(shape@, tile_shape@, tpa@),
        prod(tile_shape@) <= usize::MAX,
    ensures
        g.origin@.len() == shape@.len(),
        g.dims@.len() == shape@.len(),
        forall|k: int| 0 <= k < shape@.len() ==> #[trigger] g.origin@[k] == tile_origin(tile as int, tile_shape@, tpa@, k),
        forall|k: int|
            0 <= k < shape@.len() ==> #[trigger] g.dims@[k] == tile_dim(tile as int, shape@, tile_shape@, tpa@, k),
        g.pixels == prod(g.dims@),
{
    let n = shape.len();
    let mut origin: Vec<usize> = Vec::new();
    let mut dims: Vec<usize> = Vec::new();
    let mut rem: usize = tile;
    let mut pixels: usize = 1;
    let mut k: usize = 0;
    proof {
        assert(tpa@.subrange(0, 0) =~= Seq::<usize>::empty());
        assert(dims@ =~= Seq::<usize>::empty());
    }
    while k < n
        invariant
            n == shape@.len(),
            tiling_ok(shape@, tile_shape@, tpa@),
            prod(tile_shape@) <= usize::MAX,
            k <= n,
            origin@.len() == k,
            dims@.len() == k,
            forall|j: int| 0 <= j < k ==> #[trigger] origin@[j] == tile_origin(tile as int, tile_shape@, tpa@, j),
            forall|j: int| 0 <= j < k ==> #[trigger] dims@[j] == tile_dim(tile as int, shape@, tile_shape@, tpa@, j),
            forall|j: int| 0 <= j < k ==> #[trigger] dims@[j] <= tile_shape@[j],
            rem as int == tile as int / prod(tpa@.subrange(0, k as int)),
            pixels as int == prod(dims@),
        decreases n - k,
    {
        proof {
            lemma_tiling_facts(shape@, tile_shape@, tpa@, tile as int, k as int);
        }
        let t = tile_shape[k];
        let per = tpa[k];
        let c = rem % per;
        let o = c * t;
        proof {
            assert(c as int == coord_of(tile as int, tpa@, k as int));
            assert(o as int == tile_origin(tile as int, tile_shape@, tpa@, k as int));
        }
        let left = shape[k] - o;
        let d = if t < left { t } else { left };
        proof {
            lemma_prod_push(tpa@, k as int);
            vstd::arithmetic::div_mod::lemma_div_denominator(tile as int, prod(tpa@.subrange(0, k as int)), per as int);
            lemma_prod_push(dims@.push(d), k as int);
            assert(dims@.push(d).subrange(0, k as int) =~= dims@);
            assert(dims@.push(d).subrange(0, k as int + 1) =~= dims@.push(d));
            assert forall|j: int| 0 <= j < k + 1 implies #[trigger] dims@.push(d)[j] <= tile_shape@.subrange(0, k + 1)[j] by {}
            lemma_prod_le(dims@.push(d), tile_shape@.subrange(0, k + 1));
            assert forall|j: int| 0 <= j < tile_shape@.len() implies #[trigger] tile_shape@[j] >= 1 by {}
            lemma_prod_le_suffix(tile_shape@, k + 1);
        }
        origin.push(o);
        dims.push(d);
        pixels = pixels * d;
        rem = rem / per;
        k = k + 1;
    }
    TileGeometry { origin, dims, pixels }
}

/// The product of a prefix of positive entries is at most the whole product.
pub(crate) proof fn lemma_prod_le_suffix(s: Seq<usize>, k: int)
    requires
        0 <= k <= s.len(),
        forall|j: int| 0 <= j < s.len() ==> #[trigger] s[j] >= 1,
    ensures
        prod(s.subrange(0, k)) <= prod(s),
    decreases s.len() - k,
{
    if k < s.len() {
        lemma_prod_le_suffix(s, k + 1);
        lemma_prod_push(s, k);
        assert forall|j: int| 0 <= j < k implies #[trigger] s.subrange(0, k)[j] >= 1 by {}
        lemma_prod_pos(s.subrange(0, k));
        vstd::arithmetic::mul::lemma_mul_increases(s[k] as int, prod(s.subrange(0, k)));
    } else {
        assert(s.subrange(0, k) =~= s);
    }
}

// ---------------------------------------------------------------------------
// Tile elements in the image
// ---------------------------------------------------------------------------

/// The image offset contributed by axes `0..k` for element `j` of a tile at
/// `origin` with extents `dims`, in an image of `shape` (axis 0 fastest).
pub open spec fn pos_sum(origin: Seq<usize>, dims: Seq<usize>, shape: Seq<usize>, j: int, k: int) -> int
    decreases k,
{
    if k <= 0 {
        0
    } else {
        pos_sum(origin, dims, shape, j, k - 1) + (origin[k - 1] + coord_of(j, dims, k - 1)) * prod(
            shape.subrange(0, k - 1),
        )
    }
}

/// The image offset of element `j` of a tile, elements taken with axis 0
/// varying fastest.
pub open spec fn tile_elem_pos(origin: Seq<usize>, dims: Seq<usize>, shape: Seq<usize>, j: int) -> int {
    pos_sum(origin, dims, shape, j, shape.len() as int)
}

/// A tile at `origin` with extents `dims` lies inside an image of `shape`.
pub open spec fn tile_inside(origin: Seq<usize>, dims: Seq<usize>, shape: Seq<usize>) -> bool {
    &&& origin.len() == shape.len()
    &&& dims.len() == shape.len()
    &&& forall|k: int| 0 <= k < shape.len() ==> origin[k] + dims[k] <= #[trigger] shape[k]
}

proof fn lemma_prod_entries_pos(s: Seq<usize>)
    requires
        prod(s) != 0,
    ensures
        forall|k: int| 0 <= k < s.len() ==> #[trigger] s[k] >= 1,
    decreases s.len(),
{
    if s.len() > 0 {
        let a = prod(s.drop_last());
        let b = s.last() as int;
        assert(a != 0 && b != 0) by (nonlinear_arith)
            requires a * b != 0;
        lemma_prod_entries_pos(s.drop_last());
        assert forall|k: int| 0 <= k < s.len() implies #[trigger] s[k] >= 1 by {
            if k < s.len() - 1 {
                assert(s.drop_last()[k] == s[k]);
            }
        }
    }
}

/// One step of a mixed-radix offset stays below the next stride.
proof fn lemma_pos_step(pos: int, c: int, stride: int, a: int)
    requires
        0 <= pos <= stride - 1,
        0 <= c <= a - 1,
        stride >= 1,
    ensures
        0 <= pos + c * stride <= stride * a - 1,
        c * stride <= stride * a - stride,
{
    assert(c * stride <= (a - 1) * stride) by (nonlinear_arith)
        requires 0 <= c <= a - 1, stride >= 1;
    assert((a - 1) * stride == stride * a - stride) by (nonlinear_arith);
    assert(c * stride >= 0) by (nonlinear_arith)
        requires c >= 0, stride >= 1;
}

/// Element `j` of a tile inside the image lies inside the image.
pub(crate) proof fn lemma_elem_pos_bound(origin: Seq<usize>, dims: Seq<usize>, shape: Seq<usize>, j: int, k: int)
    requires
        tile_inside(origin, dims, shape),
        0 <= j < prod(dims),
        0 <= k <= shape.len(),
    ensures
        0 <= pos_sum(origin, dims, shape, j, k) < prod(shape.subrange(0, k)),
    decreases k,
{
    lemma_prod_entries_pos(dims);
    if k == 0 {
        assert(shape.subrange(0, 0) =~= Seq::<usize>::empty());
    } else {
        lemma_elem_pos_bound(origin, dims, shape, j, k - 1);
        let i = k - 1;
        assert(origin[i] + dims[i] <= shape[i]);
        assert forall|q: int| 0 <= q < i implies #[trigger] shape.subrange(0, i)[q] >= 1 by {
            assert(origin[q] + dims[q] <= shape[q]);
        }
        lemma_prod_pos(shape.subrange(0, i));
        assert forall|q: int| 0 <= q < i implies #[trigger] dims.subrange(0, i)[q] >= 1 by {}
        lemma_prod_pos(dims.subrange(0, i));
        let p = prod(dims.subrange(0, i));
        assert(j / p >= 0) by (nonlinear_arith)
            requires j >= 0, p >= 1;
        vstd::arithmetic::div_mod::lemma_mod_bound(j / p, dims[i] as int);
        let c = origin[i] + coord_of(j, dims, i);
        lemma_pos_step(pos_sum(origin, dims, shape, j, i), c, prod(shape.subrange(0, i)), shape[i] as int);
        lemma_prod_push(shape, i);
    }
}

/// The image offset of element `j` of a tile.
fn elem_pos(origin: &Vec<usize>, dims: &Vec<usize>, shape: &Vec<usize>, j: usize) -> (pos: usize)
    requires
        tile_inside(origin@, dims@, shape@),
        j < prod(dims@),
        prod(shape@) <= usize::MAX,
    ensures
        pos == tile_elem_pos(origin@, dims@, shape@, j as int),
        pos < prod(shape@),
{
    let n = shape.len();
    proof {
        lemma_prod_entries_pos(dims@);
        assert forall|k: int| 0 <= k < n implies #[trigger] shape@[k] >= 1 by {
            assert(origin@[k] + dims@[k] <= shape@[k]);
        }
        assert(dims@.subrange(0, 0) =~= Seq::<usize>::empty());
        assert(shape@.subrange(0, 0) =~= Seq::<usize>::empty());
    }
    let mut rem: usize = j;
    let mut stride: usize = 1;
    let mut pos: usize = 0;
    let mut k: usize = 0;
    while k < n
        invariant
            n == shape@.len(),
            tile_inside(origin@, dims@, shape@),
            forall|i: int| 0 <= i < n ==> #[trigger] dims@[i] >= 1,
            forall|i: int| 0 <= i < n ==> #[trigger] shape@[i] >= 1,
            prod(shape@) <= usize::MAX,
            k <= n,
            rem as int == j as int / prod(dims@.subrange(0, k as int)),
            stride as int == prod(shape@.subrange(0, k as int)),
            pos as int == pos_sum(origin@, dims@, shape@, j as int, k as int),
            pos < stride,
        decreases n - k,
    {
        let d = dims[k];
        let local = rem % d;
        proof {
            assert forall|i: int| 0 <= i < k implies #[trigger] dims@.subrange(0, k as int)[i] >= 1 by {}
            lemma_prod_pos(dims@.subrange(0, k as int));
            lemma_prod_push(dims@, k as int);
            lemma_prod_push(shape@, k as int);
            vstd::arithmetic::div_mod::lemma_div_denominator(j as int, prod(dims@.subrange(0, k as int)), d as int);
            assert(local as int == coord_of(j as int, dims@, k as int));
            assert(origin@[k as int] + dims@[k as int] <= shape@[k as int]);
            lemma_pos_step(pos as int, origin@[k as int] + local, stride as int, shape@[k as int] as int);
            lemma_prod_le_suffix(shape@, k + 1);
        }
        let c = origin[k] + local;
        pos = pos + c * stride;
        stride = stride * shape[k];
        rem = rem / d;
        k = k + 1;
    }
    proof {
        assert(shape@.subrange(0, n as int) =~= shape@);
    }
    pos
}

/// The image offsets of a tile's elements, in tile order (axis 0 fastest).
pub fn tile_pixel_positions(geom: &TileGeometry, shape: &Vec<usize>) -> (r: Vec<usize>)
    requires
        tile_inside(geom.origin@, geom.dims@, shape@),
        geom.pixels == prod(geom.dims@),
        prod(shape@) <= usize::MAX,
    ensures
        r@.len() == geom.pixels,
        forall|j: int| 0 <= j < r@.len() ==> #[trigger] r@[j] == tile_elem_pos(geom.origin@, geom.dims@, shape@, j),
        forall|j: int| 0 <= j < r@.len() ==> #[trigger] r@[j] < prod(shape@),
{
    let mut r: Vec<usize> = Vec::new();
    let mut j: usize = 0;
    while j < geom.pixels
        invariant
            tile_inside(geom.origin@, geom.dims@, shape@),
            geom.pixels == prod(geom.dims@),
            prod(shape@) <= usize::MAX,
            j <= geom.pixels,
            r@.len() == j,
            forall|i: int| 0 <= i < j ==> #[trigger] r@[i] == tile_elem_pos(geom.origin@, geom.dims@, shape@, i),
            forall|i: int| 0 <= i < j ==> #[trigger] r@[i] < prod(shape@),
        decreases geom.pixels - j,
    {
        let p = elem_pos(&geom.origin, &geom.dims, shape, j);
        r.push(p);
        j = j + 1;
    }
    r
}

// ---------------------------------------------------------------------------
// Tiles a region touches
// ---------------------------------------------------------------------------

/// Tile `t` overlaps the region at `start` with extents `rshape` along every
/// axis.
pub open spec fn tile_touches(t: int, tile_shape: Seq<usize>, tpa: Seq<usize>, start: Seq<usize>, rshape: Seq<usize>) -> bool {
    forall|k: int|
        0 <= k < tpa.len() ==> (start[k] as int) / (tile_shape[k] as int) <= #[trigger] coord_of(t, tpa, k) <= (start[k]
            + rshape[k] - 1) / (tile_shape[k] as int)
}

/// Whether tile `t` overlaps the region, checking axes `0..k`.
fn touches_upto(tile_shape: &Vec<usize>, tpa: &Vec<usize>, start: &[usize], rshape: &[usize], t: usize) -> (b: bool)
    requires
        tile_shape@.len() == tpa@.len() == start@.len() == rshape@.len(),
        forall|k: int| 0 <= k < tpa@.len() ==> #[trigger] tpa@[k] >= 1,
        forall|k: int| 0 <= k < tpa@.len() ==> #[trigger] tile_shape@[k] >= 1,
        forall|k: int| 0 <= k < tpa@.len() ==> #[trigger] rshape@[k] >= 1,
        forall|k: int| 0 <= k < tpa@.len() ==> start@[k] + #[trigger] rshape@[k] <= usize::MAX,
    ensures
        b == tile_touches(t as int, tile_shape@, tpa@, start@, rshape@),
{
    let n = tpa.len();
    let mut rem: usize = t;
    let mut ok = true;
    let mut k: usize = 0;
    proof {
        assert(tpa@.subrange(0, 0) =~= Seq::<usize>::empty());
    }
    while k < n
        invariant
            n == tpa@.len(),
            tile_shape@.len() == n && start@.len() == n && rshape@.len() == n,
            forall|i: int| 0 <= i < n ==> #[trigger] tpa@[i] >= 1,
            forall|i: int| 0 <= i < n ==> #[trigger] tile_shape@[i] >= 1,
            forall|i: int| 0 <= i < n ==> #[trigger] rshape@[i] >= 1,
            forall|i: int| 0 <= i < n ==> start@[i] + #[trigger] rshape@[i] <= usize::MAX,
            k <= n,
            rem as int == t as int / prod(tpa@.subrange(0, k as int)),
            ok == (forall|i: int|
                0 <= i < k ==> (start@[i] as int) / (tile_shape@[i] as int) <= #[trigger] coord_of(t as int, tpa@, i) <= (
                start@[i] + rshape@[i] - 1) / (tile_shape@[i] as int)),
        decreases n - k,
    {
        let per = tpa[k];
        let c = rem % per;
        let ts = tile_shape[k];
        let lo = start[k] / ts;
        let hi = (start[k] + rshape[k] - 1) / ts;
        proof {
            assert forall|i: int| 0 <= i < k implies #[trigger] tpa@.subrange(0, k as int)[i] >= 1 by {}
            lemma_prod_pos(tpa@.subrange(0, k as int));
            lemma_prod_push(tpa@, k as int);
            vstd::arithmetic::div_mod::lemma_div_denominator(t as int, prod(tpa@.subrange(0, k as int)), per as int);
            assert(c as int == coord_of(t as int, tpa@, k as int));
        }
        ok = ok && lo <= c && c <= hi;
        rem = rem / per;
        k = k + 1;
    }
    ok
}

/// The tiles a region overlaps, in increasing order (equivalently, their
/// tile coordinates in order with axis 0 varying fastest).
pub fn tiles_intersecting(shape: &Vec<usize>, tile_shape: &Vec<usize>, tpa: &Vec<usize>, start: &[usize], rshape: &[usize]) -> (r: Vec<usize>)
    requires
        tiling_ok(shape@, tile_shape@, tpa@),
        start@.len() == shape@.len(),
        rshape@.len() == shape@.len(),
        forall|k: int| 0 <= k < shape@.len() ==> #[trigger] rshape@[k] >= 1,
        forall|k: int| 0 <= k < shape@.len() ==> start@[k] + #[trigger] rshape@[k] <= shape@[k],
        prod(tpa@) <= usize::MAX,
    ensures
        forall|i: int, j: int| 0 <= i < j < r@.len() ==> r@[i] < r@[j],
        forall|i: int|
            0 <= i < r@.len() ==> #[trigger] r@[i] < prod(tpa@) && tile_touches(r@[i] as int, tile_shape@, tpa@, start@, rshape@),
        forall|t: int|
            0 <= t < prod(tpa@) && tile_touches(t, tile_shape@, tpa@, start@, rshape@) ==> r@.contains(t as usize),
{
    let n = shape.len();
    let mut count: usize = 1;
    let mut k: usize = 0;
    proof {
        assert(tpa@.subrange(0, 0) =~= Seq::<usize>::empty());
        assert forall|i: int| 0 <= i < n implies #[trigger] tpa@[i] >= 1 by {
            lemma_tpa(shape@, tile_shape@, i);
        }
    }
    while k < n
        invariant
            n == shape@.len() == tpa@.len(),
            forall|i: int| 0 <= i < n ==> #[trigger] tpa@[i] >= 1,
            prod(tpa@) <= usize::MAX,
            k <= n,
            count as int == prod(tpa@.subrange(0, k as int)),
        decreases n - k,
    {
        proof {
            lemma_prod_push(tpa@, k as int);
            lemma_prod_le_suffix(tpa@, k + 1);
        }
        count = count * tpa[k];
        k = k + 1;
    }
    proof {
        assert(tpa@.subrange(0, n as int) =~= tpa@);
    }
    let mut r: Vec<usize> = Vec::new();
    let mut t: usize = 0;
    while t < count
        invariant
            tiling_ok(shape@, tile_shape@, tpa@),
            n == shape@.len() == tpa@.len(),
            start@.len() == n && rshape@.len() == n,
            forall|i: int| 0 <= i < n ==> #[trigger] tpa@[i] >= 1,
            forall|i: int| 0 <= i < n ==> #[trigger] rshape@[i] >= 1,
            forall|i: int| 0 <= i < n ==> start@[i] + #[trigger] rshape@[i] <= shape@[i],
            count as int == prod(tpa@),
            t <= count,
            forall|i: int, j: int| 0 <= i < j < r@.len() ==> r@[i] < r@[j],
            forall|i: int| 0 <= i < r@.len() ==> #[trigger] r@[i] < t,
            forall|i: int| 0 <= i < r@.len() ==> tile_touches(#[trigger] r@[i] as int, tile_shape@, tpa@, start@, rshape@),
            forall|u: int| 0 <= u < t && tile_touches(u, tile_shape@, tpa@, start@, rshape@) ==> r@.contains(u as usize),
        decreases count - t,
    {
        if touches_upto(tile_shape, tpa, start, rshape, t) {
            let ghost before = r@;
            r.push(t);
            proof {
                assert forall|u: int| 0 <= u < t + 1 && tile_touches(u, tile_shape@, tpa@, start@, rshape@) implies r@.contains(
                    u as usize,
                ) by {
                    if u < t {
                        let w = choose|w: int| 0 <= w < before.len() && before[w] == u as usize;
                        assert(r@[w] == u as usize);
                    } else {
                        assert(r@[before.len() as int] == t);
                    }
                }
            }
        } else {
            proof {
                assert forall|u: int| 0 <= u < t + 1 && tile_touches(u, tile_shape@, tpa@, start@, rshape@) implies r@.contains(
                    u as usize,
                ) by {
                    assert(u != t);
                }
            }
        }
        t = t + 1;
    }
    r
}

// ---------------------------------------------------------------------------
// Tile bytes as pixel values
// ---------------------------------------------------------------------------

/// Bytes per pixel of an integer `BITPIX`.
pub open spec fn int_bpp(b: BitPix) -> int {
    match b {
        BitPix::U8 => 1,
        BitPix::I16 => 2,
        BitPix::I32 => 4,
        BitPix::I64 => 8,
        _ => 0,
    }
}

pub open spec fn is_int_bitpix(b: BitPix) -> bool {
    b is U8 || b is I16 || b is I32 || b is I64
}

/// Pixel `i` of `bytes`: a big-endian integer of the `BITPIX` type
/// (unsigned for `BITPIX = 8`, two's complement otherwise).
pub open spec fn be_pixel(bytes: Seq<u8>, i: int, b: BitPix) -> i64 {
    let n = int_bpp(b);
    let v = be_value(bytes.subrange(n * i, n * i + n), n);
    match b {
        BitPix::U8 => v as i64,
        BitPix::I16 => v as u16 as i16 as i64,
        BitPix::I32 => v as u32 as i32 as i64,
        _ => v as u64 as i64,
    }
}

/// The first `npix` pixels of `bytes` (fewer when the bytes run out).
pub open spec fn be_pixels(bytes: Seq<u8>, npix: int, b: BitPix) -> Seq<i64> {
    let have = (bytes.len() as int) / int_bpp(b);
    Seq::new((if npix < have { npix } else { have }) as nat, |i: int| be_pixel(bytes, i, b))
}

pub open spec fn p256(q: int) -> int
    decreases q,
{
    if q <= 0 {
        1
    } else {
        256 * p256(q - 1)
    }
}

proof fn lemma_p256_mono(q: int)
    requires
        0 <= q <= 7,
    ensures
        1 <= p256(q) <= 0x100_0000_0000_0000,
    decreases q,
{
    reveal_with_fuel(p256, 8);
    if q > 0 {
        lemma_p256_mono(q - 1);
    }
}

proof fn lemma_be_value_prefix(s: Seq<u8>, t: Seq<u8>, q: int)
    requires
        0 <= q <= s.len(),
        q <= t.len(),
        s.subrange(0, q) == t.subrange(0, q),
    ensures
        be_value(s, q) == be_value(t, q),
    decreases q,
{
    if q > 0 {
        assert(s.subrange(0, q - 1) =~= s.subrange(0, q).subrange(0, q - 1));
        assert(t.subrange(0, q - 1) =~= t.subrange(0, q).subrange(0, q - 1));
        assert(s[q - 1] == s.subrange(0, q)[q - 1]);
        assert(t[q - 1] == t.subrange(0, q)[q - 1]);
        lemma_be_value_prefix(s, t, q - 1);
    }
}

/// `n` big-endian bytes of `bytes` from `start`.
pub(crate) fn read_be(bytes: &[u8], start: usize, n: usize) -> (v: u64)
    requires
        start + n <= bytes@.len(),
        n <= 8,
    ensures
        v as int == be_value(bytes@.subrange(start as int, start + n), n as int),
{
    let ghost sub = bytes@.subrange(start as int, start + n);
    let len = bytes.len();
    let mut v: u64 = 0;
    let mut q: usize = 0;
    while q < n
        invariant
            start + n <= bytes@.len(),
            n <= 8,
            q <= n,
            sub == bytes@.subrange(start as int, start + n),
            len == bytes@.len(),
            v as int == be_value(sub, q as int),
            v < p256(q as int),
        decreases n - q,
    {
        proof {
            lemma_p256_mono(q as int);
            assert(sub[q as int] == bytes@[start + q]);
            assert(v <= 0xFF_FFFF_FFFF_FFFF);
            assert(v * 256 + 255 <= u64::MAX);
            assert(p256(q + 1) == 256 * p256(q as int));
        }
        v = v * 256 + bytes[start + q] as u64;
        q = q + 1;
    }
    v
}

/// The first `npix` pixels of `bytes` as integers of the `BITPIX` type;
/// fewer when `bytes` holds fewer whole pixels.
pub fn be_ints(bytes: &[u8], npix: usize, bitpix: BitPix) -> (r: Vec<i64>)
    requires
        is_int_bitpix(bitpix),
    ensures
        r@ == be_pixels(bytes@, npix as int, bitpix),
{
    let bpp: usize = match bitpix {
        BitPix::U8 => 1,
        BitPix::I16 => 2,
        BitPix::I32 => 4,
        _ => 8,
    };
    let blen = bytes.len();
    let have = blen / bpp;
    let count = if npix < have { npix } else { have };
    let mut r: Vec<i64> = Vec::new();
    let mut i: usize = 0;
    while i < count
        invariant
            is_int_bitpix(bitpix),
            bpp as int == int_bpp(bitpix),
            have == (bytes@.len() as int) / (bpp as int),
            blen == bytes@.len(),
            count <= have,
            count == (if npix < have { npix } else { have }),
            i <= count,
            r@.len() == i,
            forall|j: int| 0 <= j < i ==> #[trigger] r@[j] == be_pixel(bytes@, j, bitpix),
        decreases count - i,
    {
        proof {
            assert(bpp * i + bpp <= bytes@.len()) by (nonlinear_arith)
                requires i < have, have == (bytes@.len() as int) / (bpp as int), bpp >= 1;
            assert(bpp * i <= bytes@.len());
        }
        let v = read_be(bytes, bpp * i, bpp);
        let x: i64 = match bitpix {
            BitPix::U8 => v as i64,
            BitPix::I16 => v as u16 as i16 as i64,
            BitPix::I32 => v as u32 as i32 as i64,
            _ => v as i64,
        };
        proof {
            lemma_p256_mono(1);
            reveal_with_fuel(be_value, 2);
        }
        r.push(x);
        i = i + 1;
    }
    proof {
        assert(r@ =~= be_pixels(bytes@, npix as int, bitpix));
    }
    r
}

/// `GZIP_2` byte planes put back in pixel order: byte `j` of pixel `p` is
/// byte `p` of plane `j`.
pub open spec fn unshuffled(raw: Seq<u8>, npix: int, bpp: int) -> Seq<u8> {
    Seq::new((npix * bpp) as nat, |i: int| raw[(i % bpp) * npix + i / bpp])
}

/// Reorders the `bpp` byte planes of `npix` pixels into pixel order.
pub fn unshuffle(raw: &[u8], npix: usize, bpp: usize) -> (r: Vec<u8>)
    requires
        bpp >= 1,
        npix * bpp <= raw@.len(),
    ensures
        r@ == unshuffled(raw@, npix as int, bpp as int),
{
    let rl = raw.len();
    proof {
        assert(npix * bpp <= rl);
    }
    let total = npix * bpp;
    let mut r: Vec<u8> = Vec::new();
    let mut i: usize = 0;
    while i < total
        invariant
            bpp >= 1,
            total == npix * bpp,
            total <= raw@.len(),
            i <= total,
            r@.len() == i,
            forall|j: int| 0 <= j < i ==> #[trigger] r@[j] == raw@[(j % bpp as int) * npix + j / bpp as int],
        decreases total - i,
    {
        let plane = i % bpp;
        let p = i / bpp;
        proof {
            vstd::arithmetic::div_mod::lemma_fundamental_div_mod(i as int, bpp as int);
            assert(plane * npix + p < total) by (nonlinear_arith)
                requires plane == i % bpp, p == i / bpp, i < total, total == npix * bpp, bpp >= 1, plane < bpp,
                    i == bpp * p + plane;
        }
        r.push(raw[plane * npix + p]);
        i = i + 1;
    }
    proof {
        assert(r@ =~= unshuffled(raw@, npix as int, bpp as int));
    }
    r
}

// ---------------------------------------------------------------------------
// gzip streams
// ---------------------------------------------------------------------------

/// What decompressing the gzip stream `gz` (every member, to the end)
/// yields: the bytes, or the decoder's error message.
pub uninterp spec fn gunzip_result(gz: Seq<u8>) -> Result<Seq<u8>, Seq<char>>;

/// What compressing `raw` into one gzip member at flate2's default level
/// yields: the stream, or the encoder's error message.
pub uninterp spec fn gzip_result(raw: Seq<u8>) -> Result<Seq<u8>, Seq<char>>;

/// Decompresses `gz` with flate2's `read::MultiGzDecoder`, reading to the
/// end; on failure, the error's message. The result depends on the bytes
/// alone and is named `gunzip_result`; nothing more is stated of it.
#[verifier::external_body]
fn gunzip(gz: &[u8]) -> (r: Result<Vec<u8>, String>)
    ensures
        match r {
            Ok(v) => gunzip_result(gz@) == Ok::<Seq<u8>, Seq<char>>(v@),
            Err(m) => gunzip_result(gz@) == Err::<Seq<u8>, Seq<char>>(m@),
        },
{
    let mut raw = Vec::new();
    match flate2::read::MultiGzDecoder::new(gz).read_to_end(&mut raw) {
        Ok(_) => Ok(raw),
        Err(e) => Err(format!("{e}")),
    }
}

/// Compresses `raw` into one gzip member with flate2's `write::GzEncoder`
/// at `Compression::default()`, writing everything then finishing. The
/// header carries no name, comment or time, so the stream depends on the
/// bytes alone; it is named `gzip_result`. The one further fact stated is
/// flate2's own round trip: `read::MultiGzDecoder` decompresses a
/// successful result back to `raw`.
#[verifier::external_body]
fn gzip(raw: &[u8]) -> (r: Result<Vec<u8>, String>)
    ensures
        match r {
            Ok(v) => gzip_result(raw@) == Ok::<Seq<u8>, Seq<char>>(v@) && gunzip_result(v@) == Ok::<
                Seq<u8>,
                Seq<char>,
            >(raw@),
            Err(m) => gzip_result(raw@) == Err::<Seq<u8>, Seq<char>>(m@),
        },
{
    let mut enc = flate2::write::GzEncoder::new(Vec::new(), flate2::Compression::default());
    match enc.write_all(raw) {
        Ok(()) => {},
        Err(e) => {
            return Err(format!("{e}"));
        },
    }
    match enc.finish() {
        Ok(v) => Ok(v),
        Err(e) => Err(format!("{e}")),
    }
}

/// `prefix` followed by `msg`, as a compression error.
fn compression_error(prefix: &str, msg: &str) -> (e: FitsError)
    ensures
        e is UnsupportedCompression,
{
    let mut s = string_from(prefix);
    push_str(&mut s, msg);
    FitsError::UnsupportedCompression(s)
}

/// The pixels a decompressed gzip tile of `npix` pixels holds (`GZIP_2`
/// byte planes when `shuffled`), or `None` when decompression failed or
/// gave fewer bytes than the tile's pixels need.
pub open spec fn gunzipped_pixels(res: Result<Seq<u8>, Seq<char>>, npix: int, shuffled: bool, b: BitPix) -> Option<Seq<i64>> {
    match res {
        Err(_) => None,
        Ok(raw) => if raw.len() < npix * int_bpp(b) {
            None
        } else if shuffled {
            Some(be_pixels(unshuffled(raw, npix, int_bpp(b)), npix, b))
        } else {
            Some(be_pixels(raw, npix, b))
        },
    }
}

/// The tile pixels from the outcome of decompressing a gzip tile.
pub fn pixels_from_gunzipped(res: Result<Vec<u8>, String>, npix: usize, shuffled: bool, bitpix: BitPix) -> (r: Result<Vec<i64>, FitsError>)
    requires
        is_int_bitpix(bitpix),
        npix * 8 <= usize::MAX,
    ensures
        match gunzipped_pixels(
            match res {
                Ok(v) => Ok::<Seq<u8>, Seq<char>>(v@),
                Err(m) => Err::<Seq<u8>, Seq<char>>(m@),
            },
            npix as int,
            shuffled,
            bitpix,
        ) {
            Some(px) => r matches Ok(v) && v@ == px,
            None => is_compression_err(r),
        },
{
    let raw = match res {
        Ok(v) => v,
        Err(m) => {
            return Err(compression_error("GZIP: ", m.as_str()));
        },
    };
    let bpp = bitpix.bytes_per_pixel();
    proof {
        assert(npix * bpp <= npix * 8) by (nonlinear_arith)
            requires bpp <= 8;
    }
    if raw.len() < npix * bpp {
        return Err(FitsError::UnsupportedCompression(string_from("GZIP tile decompressed to fewer bytes than the tile holds")));
    }
    if shuffled {
        let un = unshuffle(raw.as_slice(), npix, bpp);
        Ok(be_ints(un.as_slice(), npix, bitpix))
    } else {
        Ok(be_ints(raw.as_slice(), npix, bitpix))
    }
}

/// Decompresses a gzip tile of `npix` pixels (`GZIP_2` when `shuffled`).
pub fn gunzip_to_ints(gz: &[u8], npix: usize, shuffled: bool, bitpix: BitPix) -> (r: Result<Vec<i64>, FitsError>)
    requires
        is_int_bitpix(bitpix),
        npix * 8 <= usize::MAX,
    ensures
        match gunzipped_pixels(gunzip_result(gz@), npix as int, shuffled, bitpix) {
            Some(px) => r matches Ok(v) && v@ == px,
            None => is_compression_err(r),
        },
{
    pixels_from_gunzipped(gunzip(gz), npix, shuffled, bitpix)
}

// ---------------------------------------------------------------------------
// Decoding and encoding one tile
// ---------------------------------------------------------------------------

/// The pixels of one stored tile of `npix` pixels, or `None` when it does
/// not decode: an empty `COMPRESSED_DATA` entry falls back to a non-empty
/// `GZIP_COMPRESSED_DATA` entry, then to a non-empty `UNCOMPRESSED_DATA`
/// entry; otherwise the codec decodes the compressed bytes.
pub open spec fn tile_pixels_of(
    codec: CmpType,
    bytes: Seq<u8>,
    gzip_fallback: Seq<u8>,
    uncompressed: Seq<u8>,
    npix: int,
    bitpix: BitPix,
    rice_bytepix: int,
    rice_blocksize: int,
) -> Option<Seq<i64>> {
    if bytes.len() == 0 && gzip_fallback.len() > 0 {
        gunzipped_pixels(gunzip_result(gzip_fallback), npix, false, bitpix)
    } else if bytes.len() == 0 && uncompressed.len() > 0 {
        Some(be_pixels(uncompressed, npix, bitpix))
    } else {
        match codec {
            CmpType::Rice1 => spec_rice_decode(bytes, npix, rice_bytepix, rice_blocksize),
            CmpType::Gzip1 => gunzipped_pixels(gunzip_result(bytes), npix, false, bitpix),
            CmpType::Gzip2 => gunzipped_pixels(gunzip_result(bytes), npix, true, bitpix),
            CmpType::NoCompress => Some(be_pixels(bytes, npix, bitpix)),
        }
    }
}

/// Decodes one stored tile of `npix` pixels. `gzip_fallback` and
/// `uncompressed` are the tile's `GZIP_COMPRESSED_DATA` and
/// `UNCOMPRESSED_DATA` entries (empty when the table has no such column).
pub fn decode_tile_bytes(
    codec: CmpType,
    bytes: &[u8],
    gzip_fallback: &[u8],
    uncompressed: &[u8],
    npix: usize,
    bitpix: BitPix,
    rice_bytepix: usize,
    rice_blocksize: usize,
) -> (r: Result<Vec<i64>, FitsError>)
    requires
        is_int_bitpix(bitpix),
        npix * 8 <= usize::MAX,
    ensures
        match tile_pixels_of(
            codec,
            bytes@,
            gzip_fallback@,
            uncompressed@,
            npix as int,
            bitpix,
            rice_bytepix as int,
            rice_blocksize as int,
        ) {
            Some(px) => r matches Ok(v) && v@ == px,
            None => is_compression_err(r),
        },
{
    if bytes.len() == 0 {
        if gzip_fallback.len() > 0 {
            return gunzip_to_ints(gzip_fallback, npix, false, bitpix);
        }
        if uncompressed.len() > 0 {
            return Ok(be_ints(uncompressed, npix, bitpix));
        }
    }
    match codec {
        CmpType::Rice1 => crate::rice::decode(bytes, npix, rice_bytepix, rice_blocksize),
        CmpType::Gzip1 => gunzip_to_ints(bytes, npix, false, bitpix),
        CmpType::Gzip2 => gunzip_to_ints(bytes, npix, true, bitpix),
        CmpType::NoCompress => Ok(be_ints(bytes, npix, bitpix)),
    }
}

/// Pixels as consecutive `n`-byte big-endian values (two's complement,
/// truncated to the width).
pub open spec fn be_stream(px: Seq<i64>, n: int) -> Seq<u8>
    decreases px.len(),
{
    if px.len() == 0 {
        seq![]
    } else {
        be_stream(px.drop_last(), n) + be_bytes(px.last() as u64, n)
    }
}

/// The stored bytes of one tile `compress_tile` writes (see there).
pub open spec fn compressed_tile(algo: CompAlgo, px: Seq<i64>, bytepix: int, blocksize: int) -> Option<Result<Seq<u8>, Seq<char>>> {
    match algo {
        CompAlgo::Rice1 => match spec_rice_encode(px, bytepix, blocksize) {
            Some(b) => Some(Ok(b)),
            None => None,
        },
        CompAlgo::Gzip1 => Some(gzip_result(be_stream(px, bytepix))),
    }
}

/// Compresses one tile's pixels (`RICE_1`, or `GZIP_1` over the pixels'
/// `bytepix`-byte big-endian values).
pub fn compress_tile(algo: CompAlgo, tile_pixels: &[i64], bytepix: usize, blocksize: usize) -> (r: Result<Vec<u8>, FitsError>)
    requires
        1 <= bytepix <= 8,
    ensures
        match compressed_tile(algo, tile_pixels@, bytepix as int, blocksize as int) {
            Some(Ok(b)) => r matches Ok(v) && v@ == b,
            _ => is_compression_err(r),
        },
        algo is Gzip1 ==> (r matches Ok(v) ==> gunzip_result(v@) == Ok::<Seq<u8>, Seq<char>>(
            be_stream(tile_pixels@, bytepix as int),
        )),
{
    match algo {
        CompAlgo::Rice1 => crate::rice::encode(tile_pixels, bytepix, blocksize),
        CompAlgo::Gzip1 => {
            let raw = be_stream_bytes(tile_pixels, bytepix);
            match gzip(raw.as_slice()) {
                Ok(v) => Ok(v),
                Err(m) => Err(compression_error("GZIP: ", m.as_str())),
            }
        },
    }
}

/// The pixels as consecutive `bytepix`-byte big-endian values.
fn be_stream_bytes(px: &[i64], bytepix: usize) -> (r: Vec<u8>)
    requires
        1 <= bytepix <= 8,
    ensures
        r@ == be_stream(px@, bytepix as int),
{
    let mut r: Vec<u8> = Vec::new();
    let mut i: usize = 0;
    while i < px.len()
        invariant
            1 <= bytepix <= 8,
            i <= px@.len(),
            r@ == be_stream(px@.subrange(0, i as int), bytepix as int),
        decreases px@.len() - i,
    {
        let u = px[i] as u64;
        let ghost before = r@;
        let mut k: usize = 0;
        while k < bytepix
            invariant
                1 <= bytepix <= 8,
                k <= bytepix,
                r@.len() == before.len() + k,
                r@.subrange(0, before.len() as int) == before,
                forall|q: int| 0 <= q < k ==> #[trigger] r@[before.len() + q] == be_bytes(u, bytepix as int)[q],
            decreases bytepix - k,
        {
            let sh = (8 * (bytepix - 1 - k)) as u64;
            r.push(((u >> sh) & 0xFFu64) as u8);
            k = k + 1;
        }
        proof {
            assert forall|q: int| 0 <= q < r@.len() implies #[trigger] r@[q] == (before + be_bytes(u, bytepix as int))[q] by {
                if q < before.len() {
                    assert(r@.subrange(0, before.len() as int)[q] == r@[q]);
                } else {
                    assert(r@[before.len() + (q - before.len())] == be_bytes(u, bytepix as int)[q - before.len()]);
                }
            }
            assert(r@ =~= before + be_bytes(u, bytepix as int));
            assert(px@.subrange(0, i + 1).drop_last() =~= px@.subrange(0, i as int));
            assert(px@.subrange(0, i + 1).last() == px@[i as int]);
        }
        i = i + 1;
    }
    proof {
        assert(px@.subrange(0, px@.len() as int) =~= px@);
    }
    r
}

// ---------------------------------------------------------------------------
// Round trip of a gzip tile
// ---------------------------------------------------------------------------

/// `x` is a value of the integer pixel type `b`.
pub open spec fn fits_bitpix(x: i64, b: BitPix) -> bool {
    match b {
        BitPix::U8 => 0 <= x <= 255,
        BitPix::I16 => -32768 <= x <= 32767,
        BitPix::I32 => -2147483648 <= x <= 2147483647,
        BitPix::I64 => true,
        _ => false,
    }
}

proof fn lemma_be_stream_len(px: Seq<i64>, n: int)
    requires
        n >= 0,
    ensures
        be_stream(px, n).len() == n * px.len(),
    decreases px.len(),
{
    if px.len() > 0 {
        lemma_be_stream_len(px.drop_last(), n);
        assert(n * (px.len() - 1) + n == n * px.len()) by (nonlinear_arith);
    }
}

proof fn lemma_be_stream_at(px: Seq<i64>, n: int, i: int)
    requires
        n >= 1,
        0 <= i < px.len(),
    ensures
        n * i + n <= be_stream(px, n).len(),
        be_stream(px, n).subrange(n * i, n * i + n) == be_bytes(px[i] as u64, n),
    decreases px.len(),
{
    lemma_be_stream_len(px, n);
    lemma_be_stream_len(px.drop_last(), n);
    let head = be_stream(px.drop_last(), n);
    let whole = be_stream(px, n);
    assert(n * i + n <= n * px.len()) by (nonlinear_arith)
        requires i + 1 <= px.len(), n >= 1;
    if i < px.len() - 1 {
        lemma_be_stream_at(px.drop_last(), n, i);
        assert(whole.subrange(n * i, n * i + n) =~= head.subrange(n * i, n * i + n));
        assert(px.drop_last()[i] == px[i]);
    } else {
        assert(n * i == n * (px.len() - 1));
        assert(whole.subrange(n * i, n * i + n) =~= be_bytes(px.last() as u64, n));
    }
}

proof fn lemma_bytes_bv1(x: i64, s0: u8)
    by (bit_vector)
    requires
        0 <= x <= 255,
        s0 == (((x as u64) >> 0u64) & 0xFFu64) as u8,
    ensures
        (s0 as int) as i64 == x,
{
}

proof fn lemma_bytes_bv2(x: i64, s0: u8, s1: u8)
    by (bit_vector)
    requires
        -32768 <= x <= 32767,
        s0 == (((x as u64) >> 8u64) & 0xFFu64) as u8,
        s1 == (((x as u64) >> 0u64) & 0xFFu64) as u8,
    ensures
        ((s0 as int) * 256 + (s1 as int)) as u16 as i16 as i64 == x,
{
}

proof fn lemma_bytes_bv4(x: i64, s0: u8, s1: u8, s2: u8, s3: u8)
    by (bit_vector)
    requires
        -2147483648 <= x <= 2147483647,
        s0 == (((x as u64) >> 24u64) & 0xFFu64) as u8,
        s1 == (((x as u64) >> 16u64) & 0xFFu64) as u8,
        s2 == (((x as u64) >> 8u64) & 0xFFu64) as u8,
        s3 == (((x as u64) >> 0u64) & 0xFFu64) as u8,
    ensures
        ((((s0 as int) * 256 + (s1 as int)) * 256 + (s2 as int)) * 256 + (s3 as int)) as u32 as i32 as i64 == x,
{
}

proof fn lemma_bytes_bv8(x: i64, s0: u8, s1: u8, s2: u8, s3: u8, s4: u8, s5: u8, s6: u8, s7: u8)
    by (bit_vector)
    requires
        s0 == (((x as u64) >> 56u64) & 0xFFu64) as u8,
        s1 == (((x as u64) >> 48u64) & 0xFFu64) as u8,
        s2 == (((x as u64) >> 40u64) & 0xFFu64) as u8,
        s3 == (((x as u64) >> 32u64) & 0xFFu64) as u8,
        s4 == (((x as u64) >> 24u64) & 0xFFu64) as u8,
        s5 == (((x as u64) >> 16u64) & 0xFFu64) as u8,
        s6 == (((x as u64) >> 8u64) & 0xFFu64) as u8,
        s7 == (((x as u64) >> 0u64) & 0xFFu64) as u8,
    ensures
        ((((((((s0 as int) * 256 + (s1 as int)) * 256 + (s2 as int)) * 256 + (s3 as int)) * 256 + (s4 as int)) * 256
            + (s5 as int)) * 256 + (s6 as int)) * 256 + (s7 as int)) as u64 as i64 == x,
{
}

/// A pixel written as a big-endian value of its type reads back.
proof fn lemma_be_pixel_back(x: i64, b: BitPix, s: Seq<u8>, i: int)
    requires
        is_int_bitpix(b),
        fits_bitpix(x, b),
        0 <= i,
        int_bpp(b) * i + int_bpp(b) <= s.len(),
        s.subrange(int_bpp(b) * i, int_bpp(b) * i + int_bpp(b)) == be_bytes(x as u64, int_bpp(b)),
    ensures
        be_pixel(s, i, b) == x,
{
    let n = int_bpp(b);
    let e = be_bytes(x as u64, n);
    reveal_with_fuel(be_value, 9);
    match b {
        BitPix::U8 => {
            lemma_bytes_bv1(x, e[0]);
        },
        BitPix::I16 => {
            lemma_bytes_bv2(x, e[0], e[1]);
        },
        BitPix::I32 => {
            lemma_bytes_bv4(x, e[0], e[1], e[2], e[3]);
        },
        _ => {
            lemma_bytes_bv8(x, e[0], e[1], e[2], e[3], e[4], e[5], e[6], e[7]);
        },
    }
}

/// Pixels of an integer type written as consecutive big-endian values read
/// back unchanged. With [`compress_tile`]'s statement of what its `GZIP_1`
/// stream decompresses to, this is the `GZIP_1` tile round trip:
/// [`decode_tile_bytes`] gives back the pixels [`compress_tile`] compressed.
pub proof fn lemma_gzip_tile_roundtrip(px: Seq<i64>, b: BitPix, res: Result<Seq<u8>, Seq<char>>)
    requires
        is_int_bitpix(b),
        forall|i: int| 0 <= i < px.len() ==> fits_bitpix(#[trigger] px[i], b),
        res == Ok::<Seq<u8>, Seq<char>>(be_stream(px, int_bpp(b))),
    ensures
        gunzipped_pixels(res, px.len() as int, false, b) == Some(px),
{
    let n = int_bpp(b);
    let raw = be_stream(px, n);
    lemma_be_stream_len(px, n);
    assert((n * px.len()) / n == px.len()) by (nonlinear_arith)
        requires n >= 1;
    assert forall|i: int| 0 <= i < px.len() implies #[trigger] be_pixel(raw, i, b) == px[i] by {
        lemma_be_stream_at(px, n, i);
        lemma_be_pixel_back(px[i], b, raw, i);
    }
    assert(be_pixels(raw, px.len() as int, b) =~= px);
}

/// `GZIP_2` byte shuffling: the bytes of `npix` pixels of `bpp` bytes each
/// regrouped into `bpp` planes, plane `k` holding byte `k` of every pixel
/// in pixel order.
pub open spec fn shuffled(raw: Seq<u8>, npix: int, bpp: int) -> Seq<u8> {
    Seq::new((npix * bpp) as nat, |i: int| raw[(i % npix) * bpp + i / npix])
}

/// Putting shuffled byte planes back in pixel order gives back the bytes.
pub proof fn lemma_unshuffle_shuffled(raw: Seq<u8>, npix: int, bpp: int)
    requires
        npix >= 0,
        bpp >= 1,
        raw.len() == npix * bpp,
    ensures
        unshuffled(shuffled(raw, npix, bpp), npix, bpp) == raw,
{
    let sh = shuffled(raw, npix, bpp);
    let un = unshuffled(sh, npix, bpp);
    assert forall|i: int| 0 <= i < raw.len() implies #[trigger] un[i] == raw[i] by {
        let p = i / bpp;
        let k = i % bpp;
        vstd::arithmetic::div_mod::lemma_fundamental_div_mod(i, bpp);
        vstd::arithmetic::div_mod::lemma_mod_bound(i, bpp);
        assert(0 <= p < npix) by (nonlinear_arith)
            requires i == bpp * p + k, 0 <= k < bpp, 0 <= i < npix * bpp, bpp >= 1;
        let j = k * npix + p;
        assert(k * npix <= (bpp - 1) * npix) by (nonlinear_arith)
            requires 0 <= k <= bpp - 1, npix >= 0;
        assert((bpp - 1) * npix + npix == npix * bpp) by (nonlinear_arith);
        assert(k * npix >= 0) by (nonlinear_arith)
            requires k >= 0, npix >= 0;
        assert(0 <= j < npix * bpp);
        vstd::arithmetic::div_mod::lemma_fundamental_div_mod_converse(j, npix, k, p);
        assert(j == k * npix + p);
        assert(un[i] == sh[j]);
        assert(sh[j] == raw[(j % npix) * bpp + j / npix]);
        assert((j % npix) * bpp + j / npix == i) by (nonlinear_arith)
            requires j % npix == p, j / npix == k, i == bpp * p + k;
    }
    assert(un =~= raw);
}

/// `GZIP_2` tile round trip: a `GZIP_2` tile whose stream decompresses to
/// the byte-shuffled big-endian values of some pixels decodes, through
/// [`decode_tile_bytes`], to exactly those pixels. (So a `GZIP_2` tile is
/// read as a `GZIP_1` one only after its byte planes are put back.)
pub proof fn lemma_gzip2_tile_roundtrip(
    px: Seq<i64>,
    b: BitPix,
    stored: Seq<u8>,
    rice_bytepix: int,
    rice_blocksize: int,
)
    requires
        is_int_bitpix(b),
        forall|i: int| 0 <= i < px.len() ==> fits_bitpix(#[trigger] px[i], b),
        stored.len() > 0,
        gunzip_result(stored) == Ok::<Seq<u8>, Seq<char>>(
            shuffled(be_stream(px, int_bpp(b)), px.len() as int, int_bpp(b)),
        ),
    ensures
        tile_pixels_of(
            CmpType::Gzip2,
            stored,
            Seq::<u8>::empty(),
            Seq::<u8>::empty(),
            px.len() as int,
            b,
            rice_bytepix,
            rice_blocksize,
        ) == Some(px),
{
    let n = int_bpp(b);
    let raw = be_stream(px, n);
    lemma_be_stream_len(px, n);
    assert(raw.len() == px.len() * n) by (nonlinear_arith)
        requires raw.len() == n * px.len();
    lemma_unshuffle_shuffled(raw, px.len() as int, n);
    lemma_gzip_tile_roundtrip(px, b, Ok::<Seq<u8>, Seq<char>>(raw));
}

// ---------------------------------------------------------------------------
// Gathering a tile, scattering into a region
// ---------------------------------------------------------------------------

/// A tile's pixels gathered from the full image buffer `pixels` (axis 0
/// fastest), in tile order.
pub fn tile_pixels(pixels: &[i64], geom: &TileGeometry, shape: &Vec<usize>) -> (r: Vec<i64>)
    requires
        tile_inside(geom.origin@, geom.dims@, shape@),
        geom.pixels == prod(geom.dims@),
        pixels@.len() == prod(shape@),
    ensures
        r@.len() == geom.pixels,
        forall|j: int|
            0 <= j < r@.len() ==> #[trigger] r@[j] == pixels@[tile_elem_pos(geom.origin@, geom.dims@, shape@, j)],
{
    let _len = pixels.len();
    let pos = tile_pixel_positions(geom, shape);
    let mut r: Vec<i64> = Vec::new();
    let mut j: usize = 0;
    while j < pos.len()
        invariant
            pos@.len() == geom.pixels,
            pixels@.len() == prod(shape@),
            forall|i: int| 0 <= i < pos@.len() ==> #[trigger] pos@[i] == tile_elem_pos(geom.origin@, geom.dims@, shape@, i),
            forall|i: int| 0 <= i < pos@.len() ==> #[trigger] pos@[i] < prod(shape@),
            j <= pos@.len(),
            r@.len() == j,
            forall|i: int|
                0 <= i < j ==> #[trigger] r@[i] == pixels@[tile_elem_pos(geom.origin@, geom.dims@, shape@, i)],
        decreases pos@.len() - j,
    {
        r.push(pixels[pos[j]]);
        j = j + 1;
    }
    r
}

/// Element `j` of a tile lies inside the region at `start` with extents
/// `rshape`, checking axes `0..k`.
pub open spec fn elem_in_region(origin: Seq<usize>, dims: Seq<usize>, start: Seq<usize>, rshape: Seq<usize>, j: int, k: int) -> bool {
    forall|i: int|
        0 <= i < k ==> start[i] <= #[trigger] (origin[i] + coord_of(j, dims, i)) < start[i] + rshape[i]
}

/// Offset within the region-shaped output of element `j` of a tile,
/// counting axes `0..k`.
pub open spec fn region_sum(origin: Seq<usize>, dims: Seq<usize>, start: Seq<usize>, rshape: Seq<usize>, j: int, k: int) -> int
    decreases k,
{
    if k <= 0 {
        0
    } else {
        region_sum(origin, dims, start, rshape, j, k - 1) + (origin[k - 1] + coord_of(j, dims, k - 1) - start[k - 1])
            * prod(rshape.subrange(0, k - 1))
    }
}

/// Where element `j` of a tile goes in a region-shaped output, or `None`
/// when it lies outside the region.
pub open spec fn region_slot(origin: Seq<usize>, dims: Seq<usize>, start: Seq<usize>, rshape: Seq<usize>, j: int) -> Option<int> {
    if elem_in_region(origin, dims, start, rshape, j, start.len() as int) {
        Some(region_sum(origin, dims, start, rshape, j, start.len() as int))
    } else {
        None
    }
}

/// Where element `j` of a tile goes in the region's output.
fn elem_region_slot(geom: &TileGeometry, start: &[usize], rshape: &[usize], j: usize) -> (r: Option<usize>)
    requires
        geom.origin@.len() == start@.len(),
        geom.dims@.len() == start@.len(),
        rshape@.len() == start@.len(),
        j < prod(geom.dims@),
        prod(rshape@) <= usize::MAX,
        forall|k: int| 0 <= k < start@.len() ==> #[trigger] rshape@[k] >= 1,
        forall|k: int| 0 <= k < start@.len() ==> geom.origin@[k] + #[trigger] geom.dims@[k] <= usize::MAX,
        forall|k: int| 0 <= k < start@.len() ==> start@[k] + #[trigger] rshape@[k] <= usize::MAX,
    ensures
        match region_slot(geom.origin@, geom.dims@, start@, rshape@, j as int) {
            Some(o) => r == Some(o as usize) && o < prod(rshape@),
            None => r is None,
        },
{
    let n = start.len();
    proof {
        lemma_prod_entries_pos(geom.dims@);
        assert(geom.dims@.subrange(0, 0) =~= Seq::<usize>::empty());
        assert(rshape@.subrange(0, 0) =~= Seq::<usize>::empty());
    }
    let mut rem: usize = j;
    let mut stride: usize = 1;
    let mut off: usize = 0;
    let mut inside = true;
    let mut k: usize = 0;
    while k < n
        invariant
            n == start@.len() == rshape@.len() == geom.dims@.len() == geom.origin@.len(),
            forall|i: int| 0 <= i < n ==> #[trigger] geom.dims@[i] >= 1,
            prod(rshape@) <= usize::MAX,
            forall|i: int| 0 <= i < n ==> #[trigger] rshape@[i] >= 1,
            forall|i: int| 0 <= i < n ==> geom.origin@[i] + #[trigger] geom.dims@[i] <= usize::MAX,
            forall|i: int| 0 <= i < n ==> start@[i] + #[trigger] rshape@[i] <= usize::MAX,
            k <= n,
            rem as int == j as int / prod(geom.dims@.subrange(0, k as int)),
            inside == elem_in_region(geom.origin@, geom.dims@, start@, rshape@, j as int, k as int),
            inside ==> stride as int == prod(rshape@.subrange(0, k as int)),
            inside ==> off as int == region_sum(geom.origin@, geom.dims@, start@, rshape@, j as int, k as int),
            inside ==> off < stride,
        decreases n - k,
    {
        let d = geom.dims[k];
        let local = rem % d;
        proof {
            assert forall|i: int| 0 <= i < k implies #[trigger] geom.dims@.subrange(0, k as int)[i] >= 1 by {}
            lemma_prod_pos(geom.dims@.subrange(0, k as int));
            lemma_prod_push(geom.dims@, k as int);
            vstd::arithmetic::div_mod::lemma_div_denominator(j as int, prod(geom.dims@.subrange(0, k as int)), d as int);
            assert(local as int == coord_of(j as int, geom.dims@, k as int));
        }
        if inside {
            let g = geom.origin[k] + local;
            let g_ok = start[k] <= g && g < start[k] + rshape[k];
            if g_ok {
                let c = g - start[k];
                proof {
                    lemma_prod_push(rshape@, k as int);
                    lemma_pos_step(off as int, c as int, stride as int, rshape@[k as int] as int);
                    lemma_prod_le_suffix(rshape@, k + 1);
                }
                off = off + c * stride;
                stride = stride * rshape[k];
            } else {
                inside = false;
            }
        }
        rem = rem / d;
        k = k + 1;
    }
    if inside {
        proof {
            assert(rshape@.subrange(0, n as int) =~= rshape@);
        }
        Some(off)
    } else {
        None
    }
}

/// For each element of a tile, in tile order, its offset in the output of
/// a region read, or `None` when it lies outside the region.
pub fn region_slots(geom: &TileGeometry, start: &[usize], rshape: &[usize]) -> (r: Vec<Option<usize>>)
    requires
        geom.origin@.len() == start@.len(),
        geom.dims@.len() == start@.len(),
        rshape@.len() == start@.len(),
        geom.pixels == prod(geom.dims@),
        prod(rshape@) <= usize::MAX,
        forall|k: int| 0 <= k < start@.len() ==> #[trigger] rshape@[k] >= 1,
        forall|k: int| 0 <= k < start@.len() ==> geom.origin@[k] + #[trigger] geom.dims@[k] <= usize::MAX,
        forall|k: int| 0 <= k < start@.len() ==> start@[k] + #[trigger] rshape@[k] <= usize::MAX,
    ensures
        r@.len() == geom.pixels,
        forall|j: int|
            0 <= j < r@.len() ==> match region_slot(geom.origin@, geom.dims@, start@, rshape@, j) {
                Some(o) => #[trigger] r@[j] == Some(o as usize) && o < prod(rshape@),
                None => r@[j] is None,
            },
{
    let mut r: Vec<Option<usize>> = Vec::new();
    let mut j: usize = 0;
    while j < geom.pixels
        invariant
            geom.origin@.len() == start@.len(),
            geom.dims@.len() == start@.len(),
            rshape@.len() == start@.len(),
            geom.pixels == prod(geom.dims@),
            prod(rshape@) <= usize::MAX,
            forall|k: int| 0 <= k < start@.len() ==> #[trigger] rshape@[k] >= 1,
            forall|k: int| 0 <= k < start@.len() ==> geom.origin@[k] + #[trigger] geom.dims@[k] <= usize::MAX,
            forall|k: int| 0 <= k < start@.len() ==> start@[k] + #[trigger] rshape@[k] <= usize::MAX,
            j <= geom.pixels,
            r@.len() == j,
            forall|i: int|
                0 <= i < j ==> match region_slot(geom.origin@, geom.dims@, start@, rshape@, i) {
                    Some(o) => #[trigger] r@[i] == Some(o as usize) && o < prod(rshape@),
                    None => r@[i] is None,
                },
        decreases geom.pixels - j,
    {
        let s = elem_region_slot(geom, start, rshape, j);
        r.push(s);
        j = j + 1;
    }
    r
}

} // verus!
