//! The row layout of a `BINTABLE` extension and its heap: where each
//! column's field lies in a row, how long a row is, where the heap starts,
//! and which heap bytes a variable-length array descriptor refers to.

use vstd::prelude::*;
use crate::card::CardView;
use crate::compress::{as_usize, usize_of};
use crate::error::FitsError;
use crate::header::{Header, lookup_i64};
use crate::rice::be_value;
use crate::table::{BinFormat, BinType, ColumnFormat, VarKind, spec_elem_bytes, spec_field_bytes};
use crate::text::string_from;
use crate::header::BitPix;
use crate::tile::{be_ints, be_pixels};

verus! {

/// Bytes the first `k` columns occupy in a row (an ASCII-format column
/// counts as nothing).
pub open spec fn fields_total(fs: Seq<ColumnFormat>, k: int) -> int
    decreases k,
{
    if k <= 0 {
        0
    } else {
        fields_total(fs, k - 1) + match fs[k - 1] {
            ColumnFormat::Binary(f) => spec_field_bytes(f),
            _ => 0,
        }
    }
}

/// Every column has a binary-table format.
pub open spec fn all_binary(fs: Seq<ColumnFormat>) -> bool {
    forall|i: int| 0 <= i < fs.len() ==> #[trigger] fs[i] is Binary
}

/// Where the heap starts: `THEAP` bytes past the data start when given
/// and non-negative, else right after the rows (`NAXIS1 * NAXIS2`,
/// saturating).
pub open spec fn heap_offset(h: Seq<CardView>, row_bytes: int, nrows: int) -> int {
    match lookup_i64(h, "THEAP"@) {
        Some(t) => if t >= 0 {
            t as int
        } else {
            let p = row_bytes * nrows;
            if p > u64::MAX { u64::MAX as int } else { p }
        },
        None => {
            let p = row_bytes * nrows;
            if p > u64::MAX { u64::MAX as int } else { p }
        },
    }
}

/// The row layout and heap of a binary table.
#[derive(Debug, Clone)]
pub struct BinLayout {
    /// Byte offset of each column's field within a row.
    pub field_offsets: Vec<usize>,
    /// `NAXIS1`: bytes per row.
    pub row_bytes: usize,
    /// `NAXIS2`: number of rows.
    pub nrows: usize,
    /// Where the rows start in the source.
    pub data_offset: u64,
    /// Where the heap starts in the source.
    pub heap_start: u64,
    /// `PCOUNT`: bytes of heap (zero when absent or negative).
    pub heap_len: u64,
}

/// Field size of one column format, exactly.
fn field_size(f: &ColumnFormat) -> (r: Option<u128>)
    ensures
        match *f {
            ColumnFormat::Binary(b) => r == Some(spec_field_bytes(b) as u128) && spec_field_bytes(b) >= 0,
            _ => r is None,
        },
{
    match f {
        ColumnFormat::Binary(b) => match b {
            BinFormat::Fixed { ty, count } => {
                if *ty == BinType::Bit {
                    let c = *count as u128;
                    Some(c / 8 + if c % 8 == 0 { 0 } else { 1 })
                } else {
                    let e = ty.elem_bytes() as u128;
                    proof {
                        assert(e * (*count as u128) <= 16 * 0xFFFF_FFFF_FFFF_FFFF) by (nonlinear_arith)
                            requires e <= 16, *count <= 0xFFFF_FFFF_FFFF_FFFF;
                        assert(e * (*count as u128) >= 0) by (nonlinear_arith)
                            requires e >= 0;
                    }
                    Some(e * (*count as u128))
                }
            },
            BinFormat::Var { kind, .. } => Some(if *kind == VarKind::P { 8 } else { 16 }),
        },
        ColumnFormat::Ascii { .. } => None,
    }
}

impl BinLayout {
    /// The layout a binary-table header declares for columns of `formats`
    /// whose rows start at `data_offset`. Fails (`Processing`) when
    /// `NAXIS1` or `NAXIS2` is missing or negative, when a column has an
    /// ASCII-table format, when the fields add up to more than `NAXIS1`,
    /// and when the heap would start past the last addressable byte.
    pub fn from_header(header: &Header, formats: &Vec<ColumnFormat>, data_offset: u64) -> (r: Result<BinLayout, FitsError>)
        ensures
            ({
                let h = header@;
                let fs = formats@;
                match (usize_of(lookup_i64(h, "NAXIS1"@)), usize_of(lookup_i64(h, "NAXIS2"@))) {
                    (Some(rb), Some(nr)) => if !all_binary(fs) || fields_total(fs, fs.len() as int) > rb
                        || data_offset + heap_offset(h, rb as int, nr as int) > u64::MAX {
                        r matches Err(e) && e is Processing
                    } else {
                        r matches Ok(l) && l.row_bytes == rb && l.nrows == nr && l.data_offset == data_offset
                            && l.field_offsets@.len() == fs.len() && (forall|i: int|
                            0 <= i < fs.len() ==> #[trigger] l.field_offsets@[i] == fields_total(fs, i))
                            && l.heap_start == data_offset + heap_offset(h, rb as int, nr as int) && l.heap_len == (
                        match lookup_i64(h, "PCOUNT"@) {
                            Some(p) => if p > 0 { p as int } else { 0 },
                            None => 0,
                        })
                    },
                    _ => r matches Err(e) && e is Processing,
                }
            }),
    {
        let row_bytes = match as_usize(header.get_i64("NAXIS1")) {
            Some(v) => v,
            None => {
                return Err(FitsError::Processing(string_from("BINTABLE missing NAXIS1")));
            },
        };
        let nrows = match as_usize(header.get_i64("NAXIS2")) {
            Some(v) => v,
            None => {
                return Err(FitsError::Processing(string_from("BINTABLE missing NAXIS2")));
            },
        };
        let ghost fs = formats@;
        let mut field_offsets: Vec<usize> = Vec::new();
        let mut off: u128 = 0;
        let mut k: usize = 0;
        while k < formats.len()
            invariant
                fs == formats@,
                usize_of(lookup_i64(header@, "NAXIS1"@)) == Some(row_bytes),
                usize_of(lookup_i64(header@, "NAXIS2"@)) == Some(nrows),
                k <= fs.len(),
                off as int == fields_total(fs, k as int),
                off <= row_bytes,
                forall|i: int| 0 <= i < k ==> #[trigger] fs[i] is Binary,
                field_offsets@.len() == k,
                forall|i: int| 0 <= i < k ==> #[trigger] field_offsets@[i] == fields_total(fs, i),
            decreases fs.len() - k,
        {
            proof {
                lemma_fields_total_mono(fs, k as int, fs.len() as int);
            }
            field_offsets.push(off as usize);
            let sz = match field_size(&formats[k]) {
                Some(s) => s,
                None => {
                    return Err(FitsError::Processing(string_from("ASCII column format in a BINTABLE")));
                },
            };
            off = off + sz;
            assert(off as int == fields_total(fs, k + 1));
            if off > row_bytes as u128 {
                proof {
                    lemma_fields_total_mono(fs, k + 1, fs.len() as int);
                    assert(fields_total(fs, fs.len() as int) > row_bytes);
                }
                return Err(FitsError::Processing(string_from("BINTABLE columns total more bytes than NAXIS1")));
            }
            k = k + 1;
        }
        let pcount: u64 = match header.get_i64("PCOUNT") {
            Some(p) => if p > 0 { p as u64 } else { 0 },
            None => 0,
        };
        let default_heap: u64 = match (row_bytes as u64).checked_mul(nrows as u64) {
            Some(p) => p,
            None => u64::MAX,
        };
        let theap: u64 = match header.get_i64("THEAP") {
            Some(t) => if t >= 0 { t as u64 } else { default_heap },
            None => default_heap,
        };
        let heap_start = match data_offset.checked_add(theap) {
            Some(s) => s,
            None => {
                return Err(FitsError::Processing(string_from("THEAP places the heap past the last addressable byte")));
            },
        };
        Ok(BinLayout { field_offsets, row_bytes, nrows, data_offset, heap_start, heap_len: pcount })
    }
}

proof fn lemma_fields_total_mono(fs: Seq<ColumnFormat>, k: int, n: int)
    requires
        0 <= k <= n <= fs.len(),
    ensures
        fields_total(fs, k) <= fields_total(fs, n),
        fields_total(fs, k) >= 0,
    decreases n - k,
{
    if k < n {
        lemma_fields_total_mono(fs, k, n - 1);
        match fs[n - 1] {
            ColumnFormat::Binary(f) => {
                assert(spec_field_bytes(f) >= 0) by {
                    match f {
                        BinFormat::Fixed { ty, count } => {
                            assert(spec_elem_bytes(ty) * count >= 0) by (nonlinear_arith)
                                requires spec_elem_bytes(ty) >= 0, count >= 0;
                        },
                        _ => {},
                    }
                }
            },
            _ => {},
        }
    } else {
        lemma_fields_total_nonneg(fs, k);
    }
}

proof fn lemma_fields_total_nonneg(fs: Seq<ColumnFormat>, k: int)
    requires
        0 <= k <= fs.len(),
    ensures
        fields_total(fs, k) >= 0,
    decreases k,
{
    if k > 0 {
        lemma_fields_total_nonneg(fs, k - 1);
        match fs[k - 1] {
            ColumnFormat::Binary(f) => {
                match f {
                    BinFormat::Fixed { ty, count } => {
                        assert(spec_elem_bytes(ty) * count >= 0) by (nonlinear_arith)
                            requires spec_elem_bytes(ty) >= 0, count >= 0;
                    },
                    _ => {},
                }
            },
            _ => {},
        }
    }
}

// ---------------------------------------------------------------------------
// Variable-length array descriptors
// ---------------------------------------------------------------------------

/// The element count and heap offset a variable-length array descriptor
/// holds: two big-endian signed 32-bit (`P`) or 64-bit (`Q`) integers.
pub open spec fn descriptor_of(kind: VarKind, field: Seq<u8>) -> (int, int) {
    match kind {
        VarKind::P => (
            be_value(field.subrange(0, 4), 4) as u32 as i32 as int,
            be_value(field.subrange(4, 8), 4) as u32 as i32 as int,
        ),
        VarKind::Q => (
            be_value(field.subrange(0, 8), 8) as u64 as i64 as int,
            be_value(field.subrange(8, 16), 8) as u64 as i64 as int,
        ),
    }
}

/// The heap bytes `offset..offset + nbytes` a descriptor refers to, or
/// `None` when the count or offset is negative or the span runs past the
/// heap's `heap_len` bytes.
pub open spec fn span_within(nelem: int, offset: int, nbytes: int, heap_len: int) -> Option<(int, int)> {
    if nelem < 0 || offset < 0 || offset + nbytes > heap_len {
        None
    } else {
        Some((offset, nbytes))
    }
}

/// The count and offset in a descriptor field.
pub fn read_descriptor(kind: VarKind, field: &[u8]) -> (r: (i64, i64))
    requires
        field@.len() == (if kind is P { 8int } else { 16int }),
    ensures
        r.0 as int == descriptor_of(kind, field@).0,
        r.1 as int == descriptor_of(kind, field@).1,
{
    match kind {
        VarKind::P => {
            let a = crate::tile::read_be(field, 0, 4);
            let b = crate::tile::read_be(field, 4, 4);
            (a as u32 as i32 as i64, b as u32 as i32 as i64)
        },
        VarKind::Q => {
            let a = crate::tile::read_be(field, 0, 8);
            let b = crate::tile::read_be(field, 8, 8);
            (a as i64, b as i64)
        },
    }
}

/// The heap span of a variable-length array read as raw bytes (one byte
/// per counted element), checked against the heap's `heap_len` bytes.
pub fn raw_span(kind: VarKind, field: &[u8], heap_len: u64) -> (r: Result<(u64, u64), FitsError>)
    requires
        field@.len() == (if kind is P { 8int } else { 16int }),
    ensures
        ({
            let (n, o) = descriptor_of(kind, field@);
            match span_within(n, o, n, heap_len as int) {
                Some((off, len)) => r == Ok::<(u64, u64), FitsError>((off as u64, len as u64)),
                None => r matches Err(e) && e is HeapOutOfBounds,
            }
        }),
{
    let (nelem, offset) = read_descriptor(kind, field);
    if nelem < 0 || offset < 0 {
        return Err(FitsError::HeapOutOfBounds);
    }
    let n = nelem as u64;
    let o = offset as u64;
    if o > heap_len || n > heap_len - o {
        return Err(FitsError::HeapOutOfBounds);
    }
    Ok((o, n))
}

/// Bytes `nelem` elements of `elem` take in the heap (`X` counts bits).
pub open spec fn elem_span_bytes(elem: BinType, nelem: int) -> int {
    if elem is Bit {
        (nelem + 7) / 8
    } else {
        nelem * spec_elem_bytes(elem)
    }
}

/// The element count of a variable-length array and the heap span its
/// elements take, checked against the heap's `heap_len` bytes.
pub fn elem_span(kind: VarKind, elem: BinType, field: &[u8], heap_len: u64) -> (r: Result<(u64, u64, u64), FitsError>)
    requires
        field@.len() == (if kind is P { 8int } else { 16int }),
    ensures
        ({
            let (n, o) = descriptor_of(kind, field@);
            match span_within(n, o, elem_span_bytes(elem, n), heap_len as int) {
                Some((off, len)) => r == Ok::<(u64, u64, u64), FitsError>((off as u64, len as u64, n as u64)),
                None => r matches Err(e) && e is HeapOutOfBounds,
            }
        }),
{
    let (nelem, offset) = read_descriptor(kind, field);
    if nelem < 0 || offset < 0 {
        return Err(FitsError::HeapOutOfBounds);
    }
    let n = nelem as u64;
    let o = offset as u64;
    let nbytes: u64 = if elem == BinType::Bit {
        n / 8 + if n % 8 == 0 { 0 } else { 1 }
    } else {
        let eb = elem.elem_bytes() as u64;
        match n.checked_mul(eb) {
            Some(b) => b,
            None => {
                proof {
                    assert(n * eb >= 0) by (nonlinear_arith)
                        requires eb >= 0;
                }
                return Err(FitsError::HeapOutOfBounds);
            },
        }
    };
    if o > heap_len || nbytes > heap_len - o {
        return Err(FitsError::HeapOutOfBounds);
    }
    Ok((o, nbytes, n))
}

// ---------------------------------------------------------------------------
// Fixed-field elements
// ---------------------------------------------------------------------------

/// The `BITPIX` type whose big-endian layout an integer column element
/// shares: `B` is an unsigned byte, `I`/`J`/`K` signed 16/32/64-bit.
pub open spec fn int_elem_bitpix(ty: BinType) -> Option<BitPix> {
    match ty {
        BinType::Byte => Some(BitPix::U8),
        BinType::I16 => Some(BitPix::I16),
        BinType::I32 => Some(BitPix::I32),
        BinType::I64 => Some(BitPix::I64),
        _ => None,
    }
}

/// The integer elements of a field of an integer column type, one per
/// whole big-endian element; `None` for another type.
pub fn int_elems(ty: BinType, field: &[u8]) -> (r: Option<Vec<i64>>)
    ensures
        match int_elem_bitpix(ty) {
            Some(b) => r matches Some(v) && v@ == be_pixels(field@, field@.len() as int, b),
            None => r is None,
        },
{
    let b = match ty {
        BinType::Byte => BitPix::U8,
        BinType::I16 => BitPix::I16,
        BinType::I32 => BitPix::I32,
        BinType::I64 => BitPix::I64,
        _ => {
            return None;
        },
    };
    Some(be_ints(field, field.len(), b))
}

/// The logical elements of a field: true exactly for the byte `T`.
pub fn logical_elems(field: &[u8]) -> (r: Vec<bool>)
    ensures
        r@ == Seq::new(field@.len(), |i: int| field@[i] == 84u8),
{
    let mut r: Vec<bool> = Vec::new();
    let mut i: usize = 0;
    while i < field.len()
        invariant
            i <= field@.len(),
            r@ == Seq::new(i as nat, |k: int| field@[k] == 84u8),
        decreases field@.len() - i,
    {
        r.push(field[i] == 84u8);
        i = i + 1;
        assert(r@ =~= Seq::new(i as nat, |k: int| field@[k] == 84u8));
    }
    r
}

/// An integer cell's value from its raw element: the raw value when it is
/// the column's `TNULL`, else the raw value plus an integral `TZERO`
/// (wrapping), else the raw value.
pub open spec fn int_cell_value(raw: i64, null: Option<i64>, zero: Option<i64>) -> i64 {
    if null == Some(raw) {
        raw
    } else {
        match zero {
            Some(z) => vstd::wrapping::i64_specs::wrapping_add(raw, z),
            None => raw,
        }
    }
}

/// An integer cell's value: a raw element equal to the column's `TNULL`
/// is kept as it is; any other raw element is offset by an integral
/// `TZERO` when one is given (whether or not the column has a `TNULL`),
/// the sum taken modulo 2^64 into the `i64` range; with no integral
/// `TZERO` it is the raw element.
pub proof fn lemma_int_cell_value(raw: i64, null: Option<i64>, zero: Option<i64>)
    ensures
        null == Some(raw) ==> int_cell_value(raw, null, zero) == raw,
        null != Some(raw) && zero is None ==> int_cell_value(raw, null, zero) == raw,
        null != Some(raw) && zero is Some ==> (int_cell_value(raw, null, zero) as int - raw as int
            - zero->Some_0 as int) % 0x1_0000_0000_0000_0000 == 0,
{
    if null != Some(raw) && zero is Some {
        let z = zero->Some_0;
        let v = int_cell_value(raw, null, zero) as int;
        let t = raw as int + z as int;
        if t > i64::MAX {
            assert(v == t - 0x1_0000_0000_0000_0000);
        } else if t < i64::MIN {
            assert(v == t + 0x1_0000_0000_0000_0000);
        } else {
            assert(v == t);
        }
    }
}

/// The values of an integer column's raw elements, and whether one of
/// them is the column's `TNULL`.
pub fn int_cell_values(raws: &Vec<i64>, null: Option<i64>, zero: Option<i64>) -> (r: (Vec<i64>, bool))
    ensures
        r.0@ == Seq::new(raws@.len(), |i: int| int_cell_value(raws@[i], null, zero)),
        r.1 == exists|i: int| 0 <= i < raws@.len() && null == Some(#[trigger] raws@[i]),
{
    let mut v: Vec<i64> = Vec::new();
    let mut any_null = false;
    let mut i: usize = 0;
    while i < raws.len()
        invariant
            i <= raws@.len(),
            v@ == Seq::new(i as nat, |k: int| int_cell_value(raws@[k], null, zero)),
            any_null == exists|k: int| 0 <= k < i && null == Some(#[trigger] raws@[k]),
        decreases raws@.len() - i,
    {
        let raw = raws[i];
        let is_null = match null {
            Some(n) => n == raw,
            None => false,
        };
        let value = if is_null {
            raw
        } else {
            match zero {
                Some(z) => raw.wrapping_add(z),
                None => raw,
            }
        };
        v.push(value);
        if is_null {
            any_null = true;
        }
        proof {
            assert(v@ =~= Seq::new((i + 1) as nat, |k: int| int_cell_value(raws@[k], null, zero)));
            if is_null {
                assert(null == Some(raws@[i as int]));
            }
        }
        i = i + 1;
    }
    (v, any_null)
}

} // verus!
