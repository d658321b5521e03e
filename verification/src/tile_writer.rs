//! Writing tile-compressed images: each tile of an integer image is
//! compressed on its own (`RICE_1` or `GZIP_1`) and stored as one row of a
//! `BINTABLE` extension whose single `COMPRESSED_DATA` column (`1PB`) points
//! into the heap, followed by the `Z*` keywords a reader needs to rebuild
//! the image.

use vstd::prelude::*;
use crate::card::{Card, CardView, Value, ValueView, opt_view};
use crate::compress::{CompAlgo, spec_tiles_per_axis, tiles_per_axis};
use crate::error::{FitsError, is_compression_err, is_processing_err};
use crate::header::{BitPix, bitpix_value, copy_card, views};
use crate::rice::be_bytes;
use crate::text::{dec, push_u64, string_from};
use crate::compress::CmpType;
use crate::rice::MAX_UNARY_ZEROS;
use crate::rice_laws::{fits_width, lemma_rice_quotients_fit, lemma_rice_roundtrip};
use crate::tile::{
    be_stream, fits_bitpix, gunzip_result, lemma_elem_pos_bound, lemma_gzip_tile_roundtrip, lemma_tiling_facts,
    tile_inside, tile_pixels_of,
    compress_tile, compressed_tile, int_bpp, is_int_bitpix, lemma_prod_le, lemma_prod_le_suffix, lemma_prod_nonneg, lemma_prod_pos,
    lemma_prod_push, lemma_tile_inside, lemma_tpa, prod, tile_dim, tile_elem_pos, tile_geometry, tile_origin,
    tile_pixels, tiling_ok,
};
use crate::writer::{assembled, header_bytes, serialized_all};

verus! {

// ---------------------------------------------------------------------------
// The table: one `1PB` descriptor per row, payloads in the heap
// ---------------------------------------------------------------------------

/// The byte contents of a sequence of buffers.
pub open spec fn byte_views(v: Seq<Vec<u8>>) -> Seq<Seq<u8>> {
    v.map_values(|b: Vec<u8>| b@)
}

/// All payloads, back to back, as the heap stores them.
pub open spec fn heap_of(cells: Seq<Seq<u8>>) -> Seq<u8>
    decreases cells.len(),
{
    if cells.len() == 0 {
        seq![]
    } else {
        heap_of(cells.drop_last()) + cells.last()
    }
}

/// A `P` descriptor: the element count, then the heap offset, each as a
/// 32-bit big-endian integer (the low 32 bits of the value).
pub open spec fn p_descriptor(count: int, offset: int) -> Seq<u8> {
    be_bytes(count as u64, 4) + be_bytes(offset as u64, 4)
}

/// The rows of the table: the descriptor of each payload, in order.
pub open spec fn descriptors_of(cells: Seq<Seq<u8>>) -> Seq<u8>
    decreases cells.len(),
{
    if cells.len() == 0 {
        seq![]
    } else {
        descriptors_of(cells.drop_last()) + p_descriptor(
            cells.last().len() as int,
            heap_of(cells.drop_last()).len() as int,
        )
    }
}

/// `d` followed by zero bytes up to a whole number of 2880-byte blocks.
pub open spec fn zero_padded(d: Seq<u8>) -> Seq<u8> {
    d + zeros((2880 - d.len() % 2880) % 2880)
}

/// `n` zero bytes.
pub open spec fn zeros(n: int) -> Seq<u8> {
    Seq::new(n as nat, |i: int| 0u8)
}

/// The mandatory cards of a one-column `1PB` table of `nrows` rows whose
/// heap holds `heap_len` bytes.
pub open spec fn table_head(nrows: int, heap_len: int) -> Seq<CardView> {
    seq![
        ("XTENSION"@, ValueView::String("BINTABLE"@), Some("binary table extension"@)),
        ("BITPIX"@, ValueView::Integer(8), Some("bits per data value"@)),
        ("NAXIS"@, ValueView::Integer(2), Some("2-dimensional table"@)),
        ("NAXIS1"@, ValueView::Integer(8), Some("width of table row in bytes"@)),
        ("NAXIS2"@, ValueView::Integer(nrows as i64), Some("number of rows"@)),
        ("PCOUNT"@, ValueView::Integer(heap_len as i64), Some("size of heap in bytes"@)),
        ("GCOUNT"@, ValueView::Integer(1), Some("one data group"@)),
        ("TFIELDS"@, ValueView::Integer(1), Some("number of columns"@)),
        ("TTYPE1"@, ValueView::String("COMPRESSED_DATA"@), None::<Seq<char>>),
        ("TFORM1"@, ValueView::String("1PB"@), None::<Seq<char>>),
    ]
}

/// The extension holding `payloads`, one per row, with `more` cards after
/// the mandatory ones; `None` when a card cannot be written.
pub open spec fn byte_table_hdu(payloads: Seq<Seq<u8>>, more: Seq<CardView>) -> Option<Seq<u8>> {
    match serialized_all(table_head(payloads.len() as int, heap_of(payloads).len() as int) + more) {
        None => None,
        Some(x) => Some(assembled(x) + zero_padded(descriptors_of(payloads) + heap_of(payloads))),
    }
}

/// Appends `v` as `n` big-endian bytes (its low `8 * n` bits).
fn push_be(out: &mut Vec<u8>, v: u64, n: usize)
    requires
        1 <= n <= 8,
    ensures
        final(out)@ == old(out)@ + be_bytes(v, n as int),
{
    let ghost before = out@;
    let mut k: usize = 0;
    while k < n
        invariant
            1 <= n <= 8,
            k <= n,
            out@.len() == before.len() + k,
            out@.subrange(0, before.len() as int) == before,
            forall|q: int| 0 <= q < k ==> #[trigger] out@[before.len() + q] == be_bytes(v, n as int)[q],
        decreases n - k,
    {
        let sh = (8 * (n - 1 - k)) as u64;
        out.push(((v >> sh) & 0xFFu64) as u8);
        k = k + 1;
    }
    assert forall|q: int| 0 <= q < out@.len() implies #[trigger] out@[q] == (before + be_bytes(v, n as int))[q] by {
        if q < before.len() {
            assert(out@.subrange(0, before.len() as int)[q] == out@[q]);
        } else {
            assert(out@[before.len() + (q - before.len())] == be_bytes(v, n as int)[q - before.len()]);
        }
    }
    assert(out@ =~= before + be_bytes(v, n as int));
}

/// Appends zero bytes up to a whole number of blocks.
fn pad_zeros(out: &mut Vec<u8>)
    ensures
        final(out)@ == zero_padded(old(out)@),
{
    let ghost before = out@;
    let ghost want = zero_padded(before);
    while out.len() % 2880 != 0
        invariant
            before.len() <= out@.len() <= want.len(),
            out@ == want.subrange(0, out@.len() as int),
            want == zero_padded(before),
            want.len() == before.len() + (2880 - before.len() % 2880) % 2880,
        decreases want.len() - out@.len(),
    {
        assert(out@.len() < want.len()) by {
            assert(want.len() % 2880 == 0);
            if out@.len() == want.len() {
                assert(out@.len() % 2880 == 0);
            }
        }
        let ghost j = out@.len() as int;
        assert(want[j] == 0u8) by {
            assert(j >= before.len());
            let z = zeros((2880 - before.len() % 2880) % 2880);
            assert(want[j] == z[j - before.len()]);
        }
        out.push(0u8);
        assert(out@ =~= want.subrange(0, out@.len() as int));
    }
    assert(out@.len() == want.len()) by {
        assert(want.len() % 2880 == 0);
        assert(out@.len() % 2880 == 0);
    }
    assert(out@ =~= want);
}

proof fn lemma_heap_len(cells: Seq<Seq<u8>>)
    ensures
        descriptors_of(cells).len() == 8 * cells.len(),
    decreases cells.len(),
{
    if cells.len() > 0 {
        lemma_heap_len(cells.drop_last());
    }
}

/// The rows and heap of a one-column `1PB` table holding `payloads`, and
/// the heap's length.
fn rows_and_heap(payloads: &Vec<Vec<u8>>) -> (r: (Vec<u8>, usize))
    ensures
        r.0@ == descriptors_of(byte_views(payloads@)) + heap_of(byte_views(payloads@)),
        r.1 == heap_of(byte_views(payloads@)).len(),
{
    let mut rows: Vec<u8> = Vec::new();
    let mut heap: Vec<u8> = Vec::new();
    let mut i: usize = 0;
    while i < payloads.len()
        invariant
            i <= payloads@.len(),
            rows@ == descriptors_of(byte_views(payloads@.subrange(0, i as int))),
            heap@ == heap_of(byte_views(payloads@.subrange(0, i as int))),
        decreases payloads.len() - i,
    {
        let ghost prev = byte_views(payloads@.subrange(0, i as int));
        let ghost next = byte_views(payloads@.subrange(0, i + 1));
        assert(next.drop_last() =~= prev);
        assert(next.last() == payloads@[i as int]@);
        let cell = &payloads[i];
        let off = heap.len();
        push_be(&mut rows, cell.len() as u64, 4);
        push_be(&mut rows, off as u64, 4);
        let mut j: usize = 0;
        let ghost hb = heap@;
        while j < cell.len()
            invariant
                j <= cell@.len(),
                heap@ == hb + cell@.subrange(0, j as int),
            decreases cell.len() - j,
        {
            heap.push(cell[j]);
            j = j + 1;
            assert(heap@ =~= hb + cell@.subrange(0, j as int));
        }
        assert(cell@.subrange(0, cell@.len() as int) =~= cell@);
        assert(rows@ =~= descriptors_of(next));
        i = i + 1;
    }
    assert(payloads@.subrange(0, payloads@.len() as int) =~= payloads@);
    let heap_len = heap.len();
    let mut k: usize = 0;
    let ghost rb = rows@;
    while k < heap.len()
        invariant
            k <= heap@.len(),
            rows@ == rb + heap@.subrange(0, k as int),
        decreases heap.len() - k,
    {
        rows.push(heap[k]);
        k = k + 1;
        assert(rows@ =~= rb + heap@.subrange(0, k as int));
    }
    assert(heap@.subrange(0, heap@.len() as int) =~= heap@);
    (rows, heap_len)
}

/// Appends a card.
fn push_card(out: &mut Vec<Card>, keyword: String, value: Value, comment: Option<String>)
    ensures
        views(final(out)@) == views(old(out)@).push((keyword@, value@, opt_view(comment))),
{
    let ghost before = views(out@);
    out.push(Card::new(keyword, value, comment));
    assert(views(out@) =~= before.push((keyword@, value@, opt_view(comment))));
}

/// The complete extension: header blocks, then the rows and heap padded to
/// a whole block. Fails with `Processing` when a card cannot be written.
pub fn byte_table(payloads: &Vec<Vec<u8>>, more: &Vec<Card>) -> (r: Result<Vec<u8>, FitsError>)
    ensures
        match byte_table_hdu(byte_views(payloads@), views(more@)) {
            Some(b) => r matches Ok(v) && v@ == b,
            None => is_processing_err(r),
        },
{
    let (mut data, heap_len) = rows_and_heap(payloads);
    let mut cards: Vec<Card> = Vec::new();
    push_card(&mut cards, string_from("XTENSION"), Value::String(string_from("BINTABLE")), Some(string_from("binary table extension")));
    push_card(&mut cards, string_from("BITPIX"), Value::Integer(8), Some(string_from("bits per data value")));
    push_card(&mut cards, string_from("NAXIS"), Value::Integer(2), Some(string_from("2-dimensional table")));
    push_card(&mut cards, string_from("NAXIS1"), Value::Integer(8), Some(string_from("width of table row in bytes")));
    push_card(&mut cards, string_from("NAXIS2"), Value::Integer(payloads.len() as i64), Some(string_from("number of rows")));
    push_card(&mut cards, string_from("PCOUNT"), Value::Integer(heap_len as i64), Some(string_from("size of heap in bytes")));
    push_card(&mut cards, string_from("GCOUNT"), Value::Integer(1), Some(string_from("one data group")));
    push_card(&mut cards, string_from("TFIELDS"), Value::Integer(1), Some(string_from("number of columns")));
    push_card(&mut cards, string_from("TTYPE1"), Value::String(string_from("COMPRESSED_DATA")), None);
    push_card(&mut cards, string_from("TFORM1"), Value::String(string_from("1PB")), None);
    assert(views(cards@) =~= table_head(payloads@.len() as int, heap_len as int));
    let ghost head = views(cards@);
    let mut i: usize = 0;
    while i < more.len()
        invariant
            i <= more@.len(),
            views(cards@) == head + views(more@).subrange(0, i as int),
        decreases more.len() - i,
    {
        let ghost b = views(cards@);
        cards.push(copy_card(&more[i]));
        assert(views(cards@) =~= b.push(more@[i as int]@));
        i = i + 1;
        assert(views(cards@) =~= head + views(more@).subrange(0, i as int));
    }
    assert(views(more@).subrange(0, more@.len() as int) =~= views(more@));
    let mut out = match header_bytes(cards.as_slice()) {
        Ok(v) => v,
        Err(e) => {
            return Err(e);
        },
    };
    pad_zeros(&mut data);
    let ghost hb = out@;
    let mut k: usize = 0;
    while k < data.len()
        invariant
            k <= data@.len(),
            out@ == hb + data@.subrange(0, k as int),
        decreases data.len() - k,
    {
        out.push(data[k]);
        k = k + 1;
        assert(out@ =~= hb + data@.subrange(0, k as int));
    }
    assert(data@.subrange(0, data@.len() as int) =~= data@);
    Ok(out)
}

// ---------------------------------------------------------------------------
// The compressed-image builder
// ---------------------------------------------------------------------------

/// Each entry, but at least one.
pub open spec fn at_least_one(s: Seq<usize>) -> Seq<usize> {
    s.map_values(|a: usize| if a > 1 { a } else { 1usize })
}

/// The default tiling: one full first-axis row per tile.
pub open spec fn default_tiles(shape: Seq<usize>) -> Seq<usize> {
    Seq::new(shape.len(), |i: int| if i == 0 { if shape[0] > 1 { shape[0] } else { 1usize } } else { 1usize })
}

/// One card per axis: `prefix` and the axis number, with the axis value.
pub open spec fn axis_cards(prefix: Seq<char>, vals: Seq<usize>) -> Seq<CardView> {
    Seq::new(
        vals.len(),
        |k: int| (prefix + dec((k + 1) as nat), ValueView::Integer(vals[k] as i64), None::<Seq<char>>),
    )
}

/// The cards that name the algorithm, with the `RICE_1` parameters.
pub open spec fn algo_cards(algo: CompAlgo, blocksize: usize, bytepix: int) -> Seq<CardView> {
    match algo {
        CompAlgo::Rice1 => seq![
            ("ZCMPTYPE"@, ValueView::String("RICE_1"@), None::<Seq<char>>),
            ("ZNAME1"@, ValueView::String("BLOCKSIZE"@), None::<Seq<char>>),
            ("ZVAL1"@, ValueView::Integer(blocksize as i64), None::<Seq<char>>),
            ("ZNAME2"@, ValueView::String("BYTEPIX"@), None::<Seq<char>>),
            ("ZVAL2"@, ValueView::Integer(bytepix as i64), None::<Seq<char>>),
        ],
        CompAlgo::Gzip1 => seq![("ZCMPTYPE"@, ValueView::String("GZIP_1"@), None::<Seq<char>>)],
    }
}

/// The `Z*` cards describing the compressed image, in the order astropy
/// writes them, then `EXTNAME`.
pub open spec fn z_cards(bitpix: BitPix, shape: Seq<usize>, tile_shape: Seq<usize>, algo: CompAlgo, blocksize: usize) -> Seq<CardView> {
    seq![
        ("ZIMAGE"@, ValueView::Logical(true), Some("extension contains compressed image"@)),
        ("ZTENSION"@, ValueView::String("IMAGE"@), None::<Seq<char>>),
        ("ZBITPIX"@, ValueView::Integer(bitpix_value(bitpix) as i64), None::<Seq<char>>),
        ("ZNAXIS"@, ValueView::Integer(shape.len() as i64), None::<Seq<char>>),
    ] + axis_cards("ZNAXIS"@, shape) + seq![
        ("ZPCOUNT"@, ValueView::Integer(0), None::<Seq<char>>),
        ("ZGCOUNT"@, ValueView::Integer(1), None::<Seq<char>>),
    ] + axis_cards("ZTILE"@, tile_shape) + algo_cards(algo, blocksize, int_bpp(bitpix)) + seq![
        ("EXTNAME"@, ValueView::String("COMPRESSED_IMAGE"@), Some("name of this binary table extension"@)),
    ]
}

/// The pixels of tile `t`, in tile order (axis 0 fastest), gathered from
/// the image `pixels` of `shape`.
pub open spec fn tile_px(pixels: Seq<i64>, shape: Seq<usize>, tile_shape: Seq<usize>, t: int) -> Seq<i64> {
    let tpa = spec_tiles_per_axis(shape, tile_shape);
    let origin = Seq::new(shape.len(), |k: int| tile_origin(t, tile_shape, tpa, k) as usize);
    let dims = Seq::new(shape.len(), |k: int| tile_dim(t, shape, tile_shape, tpa, k) as usize);
    Seq::new(prod(dims) as nat, |j: int| pixels[tile_elem_pos(origin, dims, shape, j)])
}

/// Builds a tile-compressed image extension HDU from an integer image.
#[derive(Debug)]
pub struct CompressedImageBuilder {
    bitpix: BitPix,
    shape: Vec<usize>,
    tile_shape: Vec<usize>,
    algo: CompAlgo,
    blocksize: usize,
    pixels: Vec<i64>,
    extra: Vec<Card>,
}

/// The stored bytes of the first `n` tiles, or `None` when one of them
/// cannot be compressed.
pub open spec fn tile_payloads(b: CompressedImageBuilder, n: int) -> Option<Seq<Seq<u8>>>
    decreases n,
{
    if n <= 0 {
        Some(seq![])
    } else {
        match tile_payloads(b, n - 1) {
            None => None,
            Some(p) => match compressed_tile(
                b.spec_algo(),
                tile_px(b.spec_pixels(), b.spec_shape(), b.spec_tile_shape(), n - 1),
                int_bpp(b.spec_bitpix()),
                b.spec_blocksize() as int,
            ) {
                Some(Ok(c)) => Some(p.push(c)),
                _ => None,
            },
        }
    }
}

/// The number of tiles.
pub open spec fn tile_count(b: CompressedImageBuilder) -> int {
    prod(spec_tiles_per_axis(b.spec_shape(), b.spec_tile_shape()))
}

/// What `serialize` produces from the builder's state.
pub open spec fn compressed_hdu(b: CompressedImageBuilder) -> Result<Seq<u8>, ()> {
    match tile_payloads(b, tile_count(b)) {
        None => Err(()),
        Some(p) => match byte_table_hdu(
            p,
            z_cards(b.spec_bitpix(), b.spec_shape(), b.spec_tile_shape(), b.spec_algo(), b.spec_blocksize())
                + b.spec_extra(),
        ) {
            Some(bytes) => Ok(bytes),
            None => Err(()),
        },
    }
}

/// Each stored `GZIP_1` tile inflates back to the big-endian bytes of its
/// pixels.
pub open spec fn gzip_payloads_ok(b: CompressedImageBuilder, p: Seq<Seq<u8>>) -> bool {
    forall|t: int|
        0 <= t < p.len() ==> gunzip_result(#[trigger] p[t]) == Ok::<Seq<u8>, Seq<char>>(
            be_stream(tile_px(b.spec_pixels(), b.spec_shape(), b.spec_tile_shape(), t), int_bpp(b.spec_bitpix())),
        )
}

proof fn lemma_payloads_len(b: CompressedImageBuilder, n: int)
    requires
        0 <= n,
    ensures
        tile_payloads(b, n) matches Some(p) ==> p.len() == n,
    decreases n,
{
    if n > 0 {
        lemma_payloads_len(b, n - 1);
    }
}

proof fn lemma_payloads_none(b: CompressedImageBuilder, k: int, n: int)
    requires
        0 <= k <= n,
        tile_payloads(b, k) is None,
    ensures
        tile_payloads(b, n) is None,
    decreases n - k,
{
    if k < n {
        lemma_payloads_none(b, k + 1, n);
    }
}

proof fn lemma_at_least_one_pos(s: Seq<usize>)
    ensures
        forall|k: int| 0 <= k < s.len() ==> #[trigger] at_least_one(s)[k] >= 1,
        forall|k: int| 0 <= k < s.len() ==> s[k] <= #[trigger] at_least_one(s)[k],
{
}

/// The product of a shape is at most that of its entries raised to one,
/// and so is the product of any prefix.
proof fn lemma_prefix_bound(s: Seq<usize>, i: int)
    requires
        0 <= i <= s.len(),
    ensures
        prod(s.subrange(0, i)) <= prod(at_least_one(s)),
{
    let m = at_least_one(s);
    lemma_at_least_one_pos(s);
    lemma_prod_le_suffix(m, i);
    assert forall|k: int| 0 <= k < i implies #[trigger] s.subrange(0, i)[k] <= m.subrange(0, i)[k] by {}
    lemma_prod_le(s.subrange(0, i), m.subrange(0, i));
}

/// The tile counts of a tiling are bounded by the image's axes (at least
/// one each).
proof fn lemma_tile_count_bound(shape: Seq<usize>, tile_shape: Seq<usize>)
    requires
        shape.len() == tile_shape.len(),
        forall|k: int| 0 <= k < tile_shape.len() ==> #[trigger] tile_shape[k] >= 1,
    ensures
        prod(spec_tiles_per_axis(shape, tile_shape)) <= prod(at_least_one(shape)),
        at_least_one(spec_tiles_per_axis(shape, tile_shape)) == spec_tiles_per_axis(shape, tile_shape),
{
    let tpa = spec_tiles_per_axis(shape, tile_shape);
    let m = at_least_one(shape);
    assert forall|k: int| 0 <= k < tpa.len() implies #[trigger] tpa[k] <= m[k] && tpa[k] >= 1 by {
        lemma_tpa(shape, tile_shape, k);
        let a = shape[k] as int;
        let t = tile_shape[k] as int;
        if a > 0 {
            assert(a + t - 1 <= t * a) by (nonlinear_arith)
                requires a >= 1, t >= 1;
            vstd::arithmetic::div_mod::lemma_div_is_ordered(a + t - 1, t * a, t);
            vstd::arithmetic::div_mod::lemma_div_multiples_vanish(a, t);
        }
    }
    lemma_prod_le(tpa, m);
    assert(at_least_one(tpa) =~= tpa);
}

proof fn lemma_default_tiles(shape: Seq<usize>)
    ensures
        prod(default_tiles(shape)) <= prod(at_least_one(shape)),
        forall|k: int| 0 <= k < shape.len() ==> #[trigger] default_tiles(shape)[k] >= 1,
{
    let d = default_tiles(shape);
    lemma_at_least_one_pos(shape);
    assert forall|k: int| 0 <= k < d.len() implies #[trigger] d[k] <= at_least_one(shape)[k] by {}
    lemma_prod_le(d, at_least_one(shape));
}

/// The product of the entries, for a sequence whose entries raised to one
/// multiply within `usize`.
fn product(v: &Vec<usize>) -> (r: usize)
    requires
        prod(at_least_one(v@)) <= usize::MAX,
    ensures
        r == prod(v@),
{
    let mut acc: usize = 1;
    let mut i: usize = 0;
    while i < v.len()
        invariant
            i <= v@.len(),
            prod(at_least_one(v@)) <= usize::MAX,
            acc == prod(v@.subrange(0, i as int)),
        decreases v.len() - i,
    {
        proof {
            lemma_prod_push(v@, i as int);
            lemma_prefix_bound(v@, i + 1);
        }
        acc = acc * v[i];
        i = i + 1;
    }
    assert(v@.subrange(0, v@.len() as int) =~= v@);
    acc
}

/// Appends one card per axis value.
fn push_axis_cards(out: &mut Vec<Card>, prefix: &str, vals: &Vec<usize>)
    ensures
        views(final(out)@) == views(old(out)@) + axis_cards(prefix@, vals@),
{
    let ghost before = views(out@);
    let mut k: usize = 0;
    while k < vals.len()
        invariant
            k <= vals@.len(),
            views(out@) == before + axis_cards(prefix@, vals@).subrange(0, k as int),
        decreases vals.len() - k,
    {
        let mut kw = string_from(prefix);
        push_u64(&mut kw, (k + 1) as u64);
        let ghost b = views(out@);
        push_card(out, kw, Value::Integer(vals[k] as i64), None);
        assert(axis_cards(prefix@, vals@).subrange(0, k + 1) =~= axis_cards(prefix@, vals@).subrange(0, k as int).push(
            axis_cards(prefix@, vals@)[k as int],
        ));
        k = k + 1;
        assert(views(out@) =~= before + axis_cards(prefix@, vals@).subrange(0, k as int));
    }
    assert(axis_cards(prefix@, vals@).subrange(0, vals@.len() as int) =~= axis_cards(prefix@, vals@));
}

impl CompressedImageBuilder {
    pub closed spec fn spec_bitpix(&self) -> BitPix {
        self.bitpix
    }

    /// `NAXIS1..NAXISn`, fastest axis first.
    pub closed spec fn spec_shape(&self) -> Seq<usize> {
        self.shape@
    }

    pub closed spec fn spec_tile_shape(&self) -> Seq<usize> {
        self.tile_shape@
    }

    pub closed spec fn spec_algo(&self) -> CompAlgo {
        self.algo
    }

    pub closed spec fn spec_blocksize(&self) -> usize {
        self.blocksize
    }

    /// Raw `BITPIX`-representation pixel values, row-major (axis 0 fastest).
    pub closed spec fn spec_pixels(&self) -> Seq<i64> {
        self.pixels@
    }

    /// The cards appended after the `Z*` block.
    pub closed spec fn spec_extra(&self) -> Seq<CardView> {
        views(self.extra@)
    }

    /// An integer image; a tile shape of the image's rank with every tile
    /// at least one pixel wide; the image's axes (each at least one) and a
    /// tile multiply within `usize`; the `RICE_1` block size of 32.
    pub open spec fn wf(&self) -> bool {
        &&& is_int_bitpix(self.spec_bitpix())
        &&& self.spec_shape().len() == self.spec_tile_shape().len()
        &&& forall|k: int| 0 <= k < self.spec_tile_shape().len() ==> #[trigger] self.spec_tile_shape()[k] >= 1
        &&& prod(self.spec_tile_shape()) <= usize::MAX
        &&& prod(at_least_one(self.spec_shape())) <= usize::MAX
        &&& self.spec_blocksize() == 32
    }

    /// Starts a builder for an image of `shape` (fastest axis first) with
    /// the default tiling (one full first-axis row per tile) and `RICE_1`.
    /// A floating-point `BITPIX` is refused with `UnsupportedCompression`.
    pub fn new(bitpix: BitPix, shape: &[usize]) -> (r: Result<CompressedImageBuilder, FitsError>)
        requires
            prod(at_least_one(shape@)) <= usize::MAX,
        ensures
            !is_int_bitpix(bitpix) ==> is_compression_err(r),
            is_int_bitpix(bitpix) ==> (r matches Ok(b) && b.wf() && b.spec_bitpix() == bitpix && b.spec_shape()
                == shape@ && b.spec_tile_shape() == default_tiles(shape@) && b.spec_algo() == CompAlgo::Rice1
                && b.spec_pixels().len() == 0 && b.spec_extra().len() == 0),
    {
        match bitpix {
            BitPix::F32 | BitPix::F64 => {
                return Err(FitsError::UnsupportedCompression(
                    string_from("floating-point tile compression is not supported"),
                ));
            },
            _ => {},
        }
        let mut sv: Vec<usize> = Vec::new();
        let mut tv: Vec<usize> = Vec::new();
        let mut i: usize = 0;
        while i < shape.len()
            invariant
                i <= shape@.len(),
                sv@ == shape@.subrange(0, i as int),
                tv@ == default_tiles(shape@).subrange(0, i as int),
            decreases shape.len() - i,
        {
            sv.push(shape[i]);
            let t: usize = if i == 0 {
                if shape[0] > 1 { shape[0] } else { 1 }
            } else {
                1
            };
            tv.push(t);
            i = i + 1;
            assert(sv@ =~= shape@.subrange(0, i as int));
            assert(tv@ =~= default_tiles(shape@).subrange(0, i as int));
        }
        assert(sv@ =~= shape@);
        assert(tv@ =~= default_tiles(shape@));
        proof {
            lemma_default_tiles(shape@);
        }
        Ok(CompressedImageBuilder {
            bitpix,
            shape: sv,
            tile_shape: tv,
            algo: CompAlgo::Rice1,
            blocksize: 32,
            pixels: Vec::new(),
            extra: Vec::new(),
        })
    }

    /// Chooses the compression algorithm.
    pub fn algorithm(self, algo: CompAlgo) -> (b: CompressedImageBuilder)
        ensures
            b.spec_algo() == algo,
            b.spec_bitpix() == self.spec_bitpix(),
            b.spec_shape() == self.spec_shape(),
            b.spec_tile_shape() == self.spec_tile_shape(),
            b.spec_blocksize() == self.spec_blocksize(),
            b.spec_pixels() == self.spec_pixels(),
            b.spec_extra() == self.spec_extra(),
    {
        let mut b = self;
        b.algo = algo;
        b
    }

    /// Sets the tile shape (each entry raised to at least one). Fails with
    /// `Processing` when its rank differs from the image's.
    pub fn tile_shape(self, tile: &[usize]) -> (r: Result<CompressedImageBuilder, FitsError>)
        requires
            self.wf(),
            prod(at_least_one(tile@)) <= usize::MAX,
        ensures
            tile@.len() != self.spec_shape().len() ==> is_processing_err(r),
            tile@.len() == self.spec_shape().len() ==> (r matches Ok(b) && b.wf() && b.spec_tile_shape()
                == at_least_one(tile@) && b.spec_bitpix() == self.spec_bitpix() && b.spec_shape()
                == self.spec_shape() && b.spec_algo() == self.spec_algo() && b.spec_pixels() == self.spec_pixels()
                && b.spec_extra() == self.spec_extra()),
    {
        if tile.len() != self.shape.len() {
            return Err(FitsError::Processing(string_from("tile shape dimensionality does not match the image")));
        }
        let mut tv: Vec<usize> = Vec::new();
        let mut i: usize = 0;
        while i < tile.len()
            invariant
                i <= tile@.len(),
                tv@ == at_least_one(tile@).subrange(0, i as int),
            decreases tile.len() - i,
        {
            let t: usize = if tile[i] > 1 { tile[i] } else { 1 };
            tv.push(t);
            i = i + 1;
            assert(tv@ =~= at_least_one(tile@).subrange(0, i as int));
        }
        assert(tv@ =~= at_least_one(tile@));
        proof {
            lemma_at_least_one_pos(tile@);
            assert(at_least_one(at_least_one(tile@)) =~= at_least_one(tile@));
        }
        let mut b = self;
        b.tile_shape = tv;
        Ok(b)
    }

    /// Sets the pixel data: raw `BITPIX`-representation values of the whole
    /// image, row-major. `storage_bitpix` is the `BITPIX` whose natural type
    /// the caller's pixels have; anything but the builder's `BITPIX` fails
    /// with `Processing`, and a count other than the image's pixel count with
    /// `BufferLenMismatch`.
    pub fn pixels(self, raw: &[i64], storage_bitpix: Option<i64>) -> (r: Result<CompressedImageBuilder, FitsError>)
        requires
            self.wf(),
        ensures
            storage_bitpix != Some(bitpix_value(self.spec_bitpix()) as i64) ==> is_processing_err(r),
            storage_bitpix == Some(bitpix_value(self.spec_bitpix()) as i64) && raw@.len() != prod(self.spec_shape())
                ==> r == Err::<CompressedImageBuilder, FitsError>(
                FitsError::BufferLenMismatch { expected: prod(self.spec_shape()) as usize, got: raw@.len() as usize },
            ),
            storage_bitpix == Some(bitpix_value(self.spec_bitpix()) as i64) && raw@.len() == prod(self.spec_shape())
                ==> (r matches Ok(b) && b.wf() && b.spec_pixels() == raw@ && b.spec_bitpix() == self.spec_bitpix()
                && b.spec_shape() == self.spec_shape() && b.spec_tile_shape() == self.spec_tile_shape()
                && b.spec_algo() == self.spec_algo() && b.spec_extra() == self.spec_extra()),
    {
        let want_bitpix = self.bitpix.as_i64();
        let matches_storage = match storage_bitpix {
            Some(v) => v == want_bitpix,
            None => false,
        };
        if !matches_storage {
            let mut m = string_from("pixel type is not the natural storage type for ZBITPIX ");
            crate::text::push_i64(&mut m, want_bitpix);
            return Err(FitsError::Processing(m));
        }
        let want = product(&self.shape);
        if raw.len() != want {
            return Err(FitsError::BufferLenMismatch { expected: want, got: raw.len() });
        }
        let mut v: Vec<i64> = Vec::new();
        let mut i: usize = 0;
        while i < raw.len()
            invariant
                i <= raw@.len(),
                v@ == raw@.subrange(0, i as int),
            decreases raw.len() - i,
        {
            v.push(raw[i]);
            i = i + 1;
            assert(v@ =~= raw@.subrange(0, i as int));
        }
        assert(v@ =~= raw@);
        let mut b = self;
        b.pixels = v;
        Ok(b)
    }

    /// Appends a header card (e.g. `BZERO`, `EXTNAME`) after the `Z*` block.
    pub fn card(self, keyword: &str, value: Value, comment: Option<&str>) -> (b: CompressedImageBuilder)
        ensures
            b.spec_extra() == self.spec_extra().push(
                (keyword@, value@, match comment {
                    Some(c) => Some(c@),
                    None => None,
                }),
            ),
            b.spec_bitpix() == self.spec_bitpix(),
            b.spec_shape() == self.spec_shape(),
            b.spec_tile_shape() == self.spec_tile_shape(),
            b.spec_algo() == self.spec_algo(),
            b.spec_blocksize() == self.spec_blocksize(),
            b.spec_pixels() == self.spec_pixels(),
    {
        let c: Option<String> = match comment {
            Some(t) => Some(string_from(t)),
            None => None,
        };
        let mut b = self;
        push_card(&mut b.extra, string_from(keyword), value, c);
        b
    }

    /// The `Z*` cards and the extra cards, in order.
    fn z_card_list(&self) -> (r: Vec<Card>)
        requires
            self.wf(),
        ensures
            views(r@) == z_cards(self.bitpix, self.shape@, self.tile_shape@, self.algo, self.blocksize) + views(
                self.extra@,
            ),
    {
        let mut out: Vec<Card> = Vec::new();
        push_card(&mut out, string_from("ZIMAGE"), Value::Logical(true), Some(string_from("extension contains compressed image")));
        push_card(&mut out, string_from("ZTENSION"), Value::String(string_from("IMAGE")), None);
        push_card(&mut out, string_from("ZBITPIX"), Value::Integer(self.bitpix.as_i64()), None);
        push_card(&mut out, string_from("ZNAXIS"), Value::Integer(self.shape.len() as i64), None);
        push_axis_cards(&mut out, "ZNAXIS", &self.shape);
        push_card(&mut out, string_from("ZPCOUNT"), Value::Integer(0), None);
        push_card(&mut out, string_from("ZGCOUNT"), Value::Integer(1), None);
        push_axis_cards(&mut out, "ZTILE", &self.tile_shape);
        match self.algo {
            CompAlgo::Rice1 => {
                push_card(&mut out, string_from("ZCMPTYPE"), Value::String(string_from("RICE_1")), None);
                push_card(&mut out, string_from("ZNAME1"), Value::String(string_from("BLOCKSIZE")), None);
                push_card(&mut out, string_from("ZVAL1"), Value::Integer(self.blocksize as i64), None);
                push_card(&mut out, string_from("ZNAME2"), Value::String(string_from("BYTEPIX")), None);
                push_card(&mut out, string_from("ZVAL2"), Value::Integer(self.bitpix.bytes_per_pixel() as i64), None);
            },
            CompAlgo::Gzip1 => {
                push_card(&mut out, string_from("ZCMPTYPE"), Value::String(string_from("GZIP_1")), None);
            },
        }
        push_card(&mut out, string_from("EXTNAME"), Value::String(string_from("COMPRESSED_IMAGE")), Some(string_from("name of this binary table extension")));
        assert(views(out@) =~= z_cards(self.bitpix, self.shape@, self.tile_shape@, self.algo, self.blocksize));
        let ghost head = views(out@);
        let mut i: usize = 0;
        while i < self.extra.len()
            invariant
                i <= self.extra@.len(),
                views(out@) == head + views(self.extra@).subrange(0, i as int),
            decreases self.extra.len() - i,
        {
            let ghost b = views(out@);
            out.push(copy_card(&self.extra[i]));
            assert(views(out@) =~= b.push(self.extra@[i as int]@));
            i = i + 1;
            assert(views(out@) =~= head + views(self.extra@).subrange(0, i as int));
        }
        assert(views(self.extra@).subrange(0, self.extra@.len() as int) =~= views(self.extra@));
        out
    }

    /// The complete extension HDU: every tile compressed in row-major tile
    /// order, one per table row, then the `Z*` and extra cards. Fails with
    /// `Processing` when the pixels do not cover the image or a card cannot
    /// be written, and with `UnsupportedCompression` when a tile cannot be
    /// compressed (`RICE_1` of 64-bit pixels, or a gzip failure).
    pub fn serialize(&self) -> (r: Result<Vec<u8>, FitsError>)
        requires
            self.wf(),
        ensures
            self.spec_pixels().len() != prod(self.spec_shape()) ==> is_processing_err(r),
            self.spec_pixels().len() == prod(self.spec_shape()) ==> match tile_payloads(*self, tile_count(*self)) {
                None => is_compression_err(r),
                Some(p) => match byte_table_hdu(
                    p,
                    z_cards(self.spec_bitpix(), self.spec_shape(), self.spec_tile_shape(), self.spec_algo(), self.spec_blocksize())
                        + self.spec_extra(),
                ) {
                    Some(bytes) => r matches Ok(v) && v@ == bytes,
                    None => is_processing_err(r),
                },
            },
            self.spec_algo() is Gzip1 && r is Ok ==> (tile_payloads(*self, tile_count(*self)) matches Some(p)
                && gzip_payloads_ok(*self, p)),
    {
        let npix = product(&self.shape);
        if self.pixels.len() != npix {
            return Err(FitsError::Processing(
                string_from("compressed image: pixels() was not called with the full image"),
            ));
        }
        let tpa = tiles_per_axis(&self.shape, &self.tile_shape);
        proof {
            lemma_tile_count_bound(self.shape@, self.tile_shape@);
        }
        let n_tiles = product(&tpa);
        let bytepix = self.bitpix.bytes_per_pixel();
        let mut payloads: Vec<Vec<u8>> = Vec::new();
        let mut t: usize = 0;
        while t < n_tiles
            invariant
                self.wf(),
                self.pixels@.len() == prod(self.shape@),
                tpa@ == spec_tiles_per_axis(self.shape@, self.tile_shape@),
                n_tiles == tile_count(*self),
                bytepix == int_bpp(self.bitpix),
                t <= n_tiles,
                tile_payloads(*self, t as int) == Some(byte_views(payloads@)),
                self.algo is Gzip1 ==> gzip_payloads_ok(*self, byte_views(payloads@)),
            decreases n_tiles - t,
        {
            let geom = tile_geometry(&self.shape, &self.tile_shape, &tpa, t);
            proof {
                lemma_tile_inside(self.shape@, self.tile_shape@, tpa@, t as int, geom.origin@, geom.dims@);
            }
            let px = tile_pixels(self.pixels.as_slice(), &geom, &self.shape);
            let ghost origin = Seq::new(self.shape@.len(), |k: int| tile_origin(t as int, self.tile_shape@, tpa@, k) as usize);
            let ghost dims = Seq::new(self.shape@.len(), |k: int| tile_dim(t as int, self.shape@, self.tile_shape@, tpa@, k) as usize);
            assert(geom.origin@ =~= origin);
            assert(geom.dims@ =~= dims);
            assert(px@ =~= tile_px(self.pixels@, self.shape@, self.tile_shape@, t as int));
            match compress_tile(self.algo, px.as_slice(), bytepix, self.blocksize) {
                Ok(c) => {
                    proof {
                        lemma_payloads_len(*self, t as int);
                    }
                    let ghost before = byte_views(payloads@);
                    payloads.push(c);
                    assert(byte_views(payloads@) =~= before.push(c@));
                    assert(self.algo is Gzip1 ==> gzip_payloads_ok(*self, byte_views(payloads@))) by {
                        if self.algo is Gzip1 {
                            assert forall|q: int| 0 <= q < byte_views(payloads@).len() implies gunzip_result(
                                #[trigger] byte_views(payloads@)[q],
                            ) == Ok::<Seq<u8>, Seq<char>>(
                                be_stream(tile_px(self.pixels@, self.shape@, self.tile_shape@, q), int_bpp(self.bitpix)),
                            ) by {
                                if q < before.len() {
                                    assert(byte_views(payloads@)[q] == before[q]);
                                }
                            }
                        }
                    }
                },
                Err(e) => {
                    proof {
                        lemma_payloads_none(*self, t + 1, n_tiles as int);
                    }
                    return Err(e);
                },
            }
            t = t + 1;
        }
        let z = self.z_card_list();
        byte_table(&payloads, &z)
    }
}

// ---------------------------------------------------------------------------
// What the stored tiles decode to
// ---------------------------------------------------------------------------

/// The codec a reader applies to tiles the builder wrote with `algo`.
pub open spec fn codec_of_algo(algo: CompAlgo) -> CmpType {
    match algo {
        CompAlgo::Rice1 => CmpType::Rice1,
        CompAlgo::Gzip1 => CmpType::Gzip1,
    }
}

/// Every pixel of every tile is a pixel of the image, so it fits the
/// image's `BITPIX` when the image's pixels do.
proof fn lemma_tile_px_fits(b: CompressedImageBuilder, t: int)
    requires
        b.wf(),
        0 <= t,
        b.spec_pixels().len() == prod(b.spec_shape()),
        forall|i: int| 0 <= i < b.spec_pixels().len() ==> fits_bitpix(#[trigger] b.spec_pixels()[i], b.spec_bitpix()),
    ensures
        forall|j: int|
            0 <= j < tile_px(b.spec_pixels(), b.spec_shape(), b.spec_tile_shape(), t).len() ==> fits_bitpix(
                #[trigger] tile_px(b.spec_pixels(), b.spec_shape(), b.spec_tile_shape(), t)[j],
                b.spec_bitpix(),
            ),
{
    let shape = b.spec_shape();
    let ts = b.spec_tile_shape();
    let tpa = spec_tiles_per_axis(shape, ts);
    let origin = Seq::new(shape.len(), |k: int| tile_origin(t, ts, tpa, k) as usize);
    let dims = Seq::new(shape.len(), |k: int| tile_dim(t, shape, ts, tpa, k) as usize);
    assert forall|k: int| 0 <= k < shape.len() implies #[trigger] origin[k] == tile_origin(t, ts, tpa, k) by {
        lemma_tiling_facts(shape, ts, tpa, t, k);
    }
    assert forall|k: int| 0 <= k < shape.len() implies #[trigger] dims[k] == tile_dim(t, shape, ts, tpa, k) by {
        lemma_tiling_facts(shape, ts, tpa, t, k);
        assert(0 <= tile_dim(t, shape, ts, tpa, k) <= ts[k]);
    }
    lemma_tile_inside(shape, ts, tpa, t, origin, dims);
    lemma_prod_nonneg(dims);
    let px = tile_px(b.spec_pixels(), shape, ts, t);
    assert forall|j: int| 0 <= j < px.len() implies fits_bitpix(#[trigger] px[j], b.spec_bitpix()) by {
        lemma_elem_pos_bound(origin, dims, shape, j, shape.len() as int);
        assert(shape.subrange(0, shape.len() as int) =~= shape);
    }
}

/// Tiles the builder stored decode, with the codec its `ZCMPTYPE` names
/// and the `BYTEPIX`/`BLOCKSIZE` it declares, to the pixels of their tile:
/// for `RICE_1` always, for `GZIP_1` given that each stored tile inflates
/// back to its input (which `serialize` reports).
pub proof fn lemma_compressed_tiles_roundtrip(b: CompressedImageBuilder, n: int, p: Seq<Seq<u8>>)
    requires
        b.wf(),
        0 <= n,
        b.spec_pixels().len() == prod(b.spec_shape()),
        forall|i: int| 0 <= i < b.spec_pixels().len() ==> fits_bitpix(#[trigger] b.spec_pixels()[i], b.spec_bitpix()),
        tile_payloads(b, n) == Some(p),
        b.spec_algo() is Gzip1 ==> gzip_payloads_ok(b, p),
    ensures
        p.len() == n,
        forall|t: int|
            0 <= t < n ==> tile_pixels_of(
                codec_of_algo(b.spec_algo()),
                #[trigger] p[t],
                Seq::<u8>::empty(),
                Seq::<u8>::empty(),
                tile_px(b.spec_pixels(), b.spec_shape(), b.spec_tile_shape(), t).len() as int,
                b.spec_bitpix(),
                int_bpp(b.spec_bitpix()),
                b.spec_blocksize() as int,
            ) == Some(tile_px(b.spec_pixels(), b.spec_shape(), b.spec_tile_shape(), t)),
    decreases n,
{
    if n > 0 {
        let prev = tile_payloads(b, n - 1)->Some_0;
        assert(prev == p.drop_last());
        if b.spec_algo() is Gzip1 {
            assert forall|t: int| 0 <= t < prev.len() implies gunzip_result(#[trigger] prev[t]) == Ok::<Seq<u8>, Seq<char>>(
                be_stream(tile_px(b.spec_pixels(), b.spec_shape(), b.spec_tile_shape(), t), int_bpp(b.spec_bitpix())),
            ) by {
                assert(prev[t] == p[t]);
            }
        }
        lemma_compressed_tiles_roundtrip(b, n - 1, prev);
        let t = n - 1;
        let px = tile_px(b.spec_pixels(), b.spec_shape(), b.spec_tile_shape(), t);
        lemma_tile_px_fits(b, t);
        let bpp = int_bpp(b.spec_bitpix());
        match b.spec_algo() {
            CompAlgo::Rice1 => {
                assert(bpp == 1 || bpp == 2 || bpp == 4);
                assert forall|i: int| 0 <= i < px.len() implies fits_width(#[trigger] px[i], bpp) by {
                    assert(fits_bitpix(px[i], b.spec_bitpix()));
                }
                assert(3 * 32 <= MAX_UNARY_ZEROS);
                lemma_rice_quotients_fit(px, bpp, 32);
                lemma_rice_roundtrip(px, bpp, 32);
            },
            CompAlgo::Gzip1 => {
                assert(gunzip_result(p[t]) == Ok::<Seq<u8>, Seq<char>>(be_stream(px, bpp)));
                lemma_gzip_tile_roundtrip(px, b.spec_bitpix(), gunzip_result(p[t]));
            },
        }
        assert forall|q: int| 0 <= q < n implies tile_pixels_of(
            codec_of_algo(b.spec_algo()),
            #[trigger] p[q],
            Seq::<u8>::empty(),
            Seq::<u8>::empty(),
            tile_px(b.spec_pixels(), b.spec_shape(), b.spec_tile_shape(), q).len() as int,
            b.spec_bitpix(),
            bpp,
            b.spec_blocksize() as int,
        ) == Some(tile_px(b.spec_pixels(), b.spec_shape(), b.spec_tile_shape(), q)) by {
            if q < n - 1 {
                assert(p[q] == prev[q]);
            }
        }
    }
}

/// With `RICE_1`, every tile of an image whose pixels fit a 8-, 16- or
/// 32-bit `BITPIX` compresses.
pub proof fn lemma_rice_tiles_compress(b: CompressedImageBuilder, n: int)
    requires
        b.wf(),
        0 <= n,
        b.spec_algo() is Rice1,
        !(b.spec_bitpix() is I64),
        b.spec_pixels().len() == prod(b.spec_shape()),
        forall|i: int| 0 <= i < b.spec_pixels().len() ==> fits_bitpix(#[trigger] b.spec_pixels()[i], b.spec_bitpix()),
    ensures
        tile_payloads(b, n) is Some,
    decreases n,
{
    if n > 0 {
        lemma_rice_tiles_compress(b, n - 1);
        let px = tile_px(b.spec_pixels(), b.spec_shape(), b.spec_tile_shape(), n - 1);
        lemma_tile_px_fits(b, n - 1);
        let bpp = int_bpp(b.spec_bitpix());
        assert forall|i: int| 0 <= i < px.len() implies fits_width(#[trigger] px[i], bpp) by {
            assert(fits_bitpix(px[i], b.spec_bitpix()));
        }
        assert(3 * 32 <= MAX_UNARY_ZEROS);
        lemma_rice_quotients_fit(px, bpp, 32);
        lemma_rice_roundtrip(px, bpp, 32);
    }
}

} // verus!
