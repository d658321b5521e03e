//! HDU discovery: locating each Header/Data Unit in a FITS file without
//! reading any data (FITS Standard 4.0 §3 "HDU structure", §7 "General
//! data-unit size formula" — the latter is what makes navigation possible
//! without interpreting what an HDU's data actually holds).

use vstd::prelude::*;
use crate::block::{padded_len, spec_padded_len};
use crate::card::{CardView, ValueView};
use crate::error::FitsError;
use crate::header::{
    Header, axis_value, bitpix_of, bitpix_value, cards_upto, end_position, lookup, lookup_i64, merge_from,
    naxis_count, naxis_scan,
};
use crate::source::ByteSource;
use crate::text::{str_eq, string_from, trim};

verus! {

/// The extension type declared by `XTENSION` (or `Primary` for the first
/// HDU, which has no `XTENSION` card). `Unknown` carries the raw value
/// verbatim rather than failing discovery — navigating past an HDU never
/// requires understanding its contents, so an exotic extension type is not
/// an error at this layer.
#[derive(Debug, Clone, PartialEq, Eq)]
pub enum HduKind {
    Primary,
    Image,
    AsciiTable,
    BinTable,
    Unknown(String),
}

/// The kind an `XTENSION` value (trimmed) names.
pub open spec fn kind_is(k: HduKind, raw: Seq<char>) -> bool {
    let t = trim(raw);
    if t == "IMAGE"@ {
        k is Image
    } else if t == "TABLE"@ {
        k is AsciiTable
    } else if t == "BINTABLE"@ {
        k is BinTable
    } else {
        k matches HduKind::Unknown(s) && s@ == t
    }
}

impl HduKind {
    pub fn from_xtension(raw: &str) -> (k: HduKind)
        ensures
            kind_is(k, raw@),
    {
        let cs = crate::text::chars_of(raw);
        let b = crate::text::trim_start_idx(&cs, 0, cs.len());
        let e = crate::text::trim_end_idx(&cs, b, cs.len());
        let t = crate::text::string_of(&cs, b, e);
        proof {
            let s = raw@;
            assert(cs@ == s);
            assert(cs@.subrange(0, cs@.len() as int) =~= s);
            assert(t@ =~= trim(s));
        }
        if str_eq(t.as_str(), "IMAGE") {
            HduKind::Image
        } else if str_eq(t.as_str(), "TABLE") {
            HduKind::AsciiTable
        } else if str_eq(t.as_str(), "BINTABLE") {
            HduKind::BinTable
        } else {
            HduKind::Unknown(t)
        }
    }
}

/// One discovered HDU: its header (already fully parsed) and the byte
/// ranges of both its header and data units. `data_len` is the logical
/// (unpadded) size; `data_padded_len` is what's actually occupied on disk
/// (a multiple of the FITS block size) and is what navigation adds to
/// `data_offset` to find the next HDU.
#[derive(Debug, Clone)]
pub struct DiscoveredHdu {
    pub kind: HduKind,
    pub header: Header,
    pub header_offset: u64,
    pub header_len: u64,
    pub data_offset: u64,
    pub data_len: u64,
    pub data_padded_len: u64,
}

impl DiscoveredHdu {
    /// Where the next HDU's header would start, if there is one.
    pub fn next_header_offset(&self) -> (n: u64)
        requires
            self.data_offset + self.data_padded_len <= u64::MAX,
        ensures
            n == self.data_offset + self.data_padded_len,
    {
        self.data_offset + self.data_padded_len
    }
}

/// Product of the axis lengths, `None` once a running product exceeds `u64`.
pub open spec fn checked_product(axes: Seq<u64>) -> Option<int> {
    checked_product_from(axes, 0, 1)
}

/// The data-unit size the header declares (see [`data_unit_len`]).
pub open spec fn data_len_of(h: Seq<CardView>) -> Result<u64, FitsError> {
    match naxis_scan(h, naxis_count(h), 1, 1) {
        Err(e) => Err(e),
        Ok(axes) => if axes.len() == 0 {
            Ok(0)
        } else {
            match lookup_i64(h, "BITPIX"@) {
                None => Err(FitsError::MissingPrimaryHdu),
                Some(v) => match bitpix_of(v as int) {
                    None => Err(FitsError::InvalidBitpix(v)),
                    Some(b) => {
                        let bpp = (if bitpix_value(b) < 0 { -bitpix_value(b) } else { bitpix_value(b) }) / 8;
                        let pc = match lookup_i64(h, "PCOUNT"@) {
                            Some(p) => if p > 0 { p as int } else { 0 },
                            None => 0,
                        };
                        let gc = match lookup_i64(h, "GCOUNT"@) {
                            Some(g) => if g > 1 { g as int } else { 1 },
                            None => 1,
                        };
                        match checked_product(axes) {
                            None => Err(FitsError::NaxisOverflow),
                            Some(n) => if n + pc > u64::MAX || (n + pc) * gc > u64::MAX || (n + pc) * gc
                                * bpp > u64::MAX {
                                Err(FitsError::NaxisOverflow)
                            } else {
                                Ok(((n + pc) * gc * bpp) as u64)
                            },
                        }
                    },
                },
            }
        },
    }
}

/// The size of a data unit is `|BITPIX| / 8` bytes per element times
/// `GCOUNT` groups of `PCOUNT` parameters plus `NAXIS1 × … × NAXISn`
/// elements (`PCOUNT` 0 and `GCOUNT` 1 when absent or out of range), read
/// from the header's own `BITPIX` value: eight times the length is
/// `|BITPIX|` times the element count. It is refused as too large exactly
/// when that many bytes do not fit in a `u64`.
pub proof fn lemma_data_len_formula(h: Seq<CardView>, axes: Seq<u64>, v: i64, count: int)
    requires
        naxis_scan(h, naxis_count(h), 1, 1) == Ok::<Seq<u64>, FitsError>(axes),
        axes.len() > 0,
        lookup_i64(h, "BITPIX"@) == Some(v),
        v == 8 || v == 16 || v == 32 || v == 64 || v == -32 || v == -64,
        checked_product(axes) == Some(count),
    ensures
        ({
            let pc: int = match lookup_i64(h, "PCOUNT"@) {
                Some(p) => if p > 0 { p as int } else { 0 },
                None => 0,
            };
            let gc: int = match lookup_i64(h, "GCOUNT"@) {
                Some(g) => if g > 1 { g as int } else { 1 },
                None => 1,
            };
            let absv: int = if v < 0 { -v } else { v as int };
            match data_len_of(h) {
                Ok(n) => 8 * n == absv * (gc * (pc + count)),
                Err(e) => e == FitsError::NaxisOverflow && absv * (gc * (pc + count)) > 8 * u64::MAX,
            }
        }),
{
    let pc: int = match lookup_i64(h, "PCOUNT"@) {
        Some(p) => if p > 0 { p as int } else { 0 },
        None => 0,
    };
    let gc: int = match lookup_i64(h, "GCOUNT"@) {
        Some(g) => if g > 1 { g as int } else { 1 },
        None => 1,
    };
    let absv: int = if v < 0 { -v } else { v as int };
    let b = bitpix_of(v as int)->Some_0;
    let bpp = (if bitpix_value(b) < 0 { -bitpix_value(b) } else { bitpix_value(b) }) / 8;
    assert(absv == 8 * bpp);
    assert(count >= 0) by {
        lemma_checked_product_nonneg(axes, 0, 1);
    }
    assert((count + pc) * gc * bpp * 8 == absv * (gc * (pc + count))) by (nonlinear_arith)
        requires absv == 8 * bpp;
    if !(count + pc > u64::MAX || (count + pc) * gc > u64::MAX || (count + pc) * gc * bpp > u64::MAX) {
    } else {
        assert((count + pc) * gc * bpp > u64::MAX) by (nonlinear_arith)
            requires count + pc > u64::MAX || (count + pc) * gc > u64::MAX || (count + pc) * gc * bpp > u64::MAX,
                gc >= 1, bpp >= 1, count >= 0, pc >= 0;
    }
}

/// The FITS Standard's general data-unit size formula, valid uniformly for
/// images, tables, and (at the byte-range level) compressed images —
/// exactly what lets an HDU be skipped without knowing what kind it is:
///
/// ```text
/// Nbytes = 0                                              if NAXIS = 0
/// Nbytes = (|BITPIX| / 8) * GCOUNT * (PCOUNT + NAXIS1*...*NAXISn)   otherwise
/// ```
///
/// `PCOUNT` defaults to 0 and `GCOUNT` to 1 when absent, per the standard.
/// Every multiplication is checked; overflow surfaces as
/// [`FitsError::NaxisOverflow`] before anything downstream could try to
/// size a buffer from a bogus declared length.
pub fn data_unit_len(header: &Header) -> (r: Result<u64, FitsError>)
    ensures
        match data_len_of(header@) {
            Ok(n) => r == Ok::<u64, FitsError>(n),
            Err(e) => r matches Err(x) && x == e,
        },
{
    let naxis = header.naxis()?;
    if naxis.len() == 0 {
        return Ok(0);
    }
    let bitpix = header.bitpix()?;
    let bytes_per_pixel = bitpix.bytes_per_pixel() as u64;
    let pcount: u64 = match header.get_i64("PCOUNT") {
        Some(p) => if p > 0 { p as u64 } else { 0 },
        None => 0,
    };
    let gcount: u64 = match header.get_i64("GCOUNT") {
        Some(g) => if g > 1 { g as u64 } else { 1 },
        None => 1,
    };
    let mut element_count: u64 = 1;
    let mut i: usize = 0;
    while i < naxis.len()
        invariant
            i <= naxis@.len(),
            checked_product(naxis@) == checked_product_from(naxis@, i as int, element_count as int),
            checked_product(naxis@) is None ==> data_len_of(header@) == Err::<u64, FitsError>(FitsError::NaxisOverflow),
        decreases naxis.len() - i,
    {
        match element_count.checked_mul(naxis[i]) {
            Some(x) => {
                element_count = x;
            },
            None => {
                assert(checked_product_from(naxis@, i as int, element_count as int) is None);
                return Err(FitsError::NaxisOverflow);
            },
        }
        i = i + 1;
    }
    let per_group = match element_count.checked_add(pcount) {
        Some(x) => x,
        None => {
            return Err(FitsError::NaxisOverflow);
        },
    };
    let grouped = match per_group.checked_mul(gcount) {
        Some(x) => x,
        None => {
            return Err(FitsError::NaxisOverflow);
        },
    };
    match grouped.checked_mul(bytes_per_pixel) {
        Some(x) => Ok(x),
        None => Err(FitsError::NaxisOverflow),
    }
}

/// The product of `axes[i..]` times `p`, `None` once a running product
/// exceeds `u64`.
pub open spec fn checked_product_from(axes: Seq<u64>, i: int, p: int) -> Option<int>
    decreases axes.len() - i,
{
    if i < 0 || i >= axes.len() {
        Some(p)
    } else if p * axes[i] > u64::MAX {
        None
    } else {
        checked_product_from(axes, i + 1, p * axes[i])
    }
}

/// A checked product started from a non-negative value is non-negative.
proof fn lemma_checked_product_nonneg(axes: Seq<u64>, i: int, p: int)
    requires
        p >= 0,
    ensures
        checked_product_from(axes, i, p) matches Some(n) ==> n >= 0,
    decreases axes.len() - i,
{
    if !(i < 0 || i >= axes.len()) && p * axes[i] <= u64::MAX {
        assert(p * axes[i] >= 0) by (nonlinear_arith)
            requires p >= 0, axes[i] >= 0;
        lemma_checked_product_nonneg(axes, i + 1, p * axes[i]);
    }
}

/// The axis scan fails only on a negative axis or an overflowing product.
pub(crate) proof fn lemma_scan_errors(h: Seq<CardView>, count: int, i: int, total: int)
    ensures
        naxis_scan(h, count, i, total) matches Err(e) ==> (e is NegativeNaxis || e is NaxisOverflow),
    decreases count + 1 - i,
{
    if !(i > count || i < 1) {
        let v = axis_value(h, i);
        let t = total * (if v > 1 { v } else { 1 });
        if v >= 0 && t <= u64::MAX {
            lemma_scan_errors(h, count, i + 1, t);
        }
    }
}

/// The first `END` card, when found, ends inside the source.
pub proof fn lemma_end_position_in_range(b: Seq<u8>, off: int, blk: int)
    requires
        end_position(b, off, blk) is Some,
    ensures
        blk <= end_position(b, off, blk)->Some_0.0,
        off + 2880 * (end_position(b, off, blk)->Some_0.0 + 1) <= b.len(),
    decreases b.len() - off - 2880 * blk,
{
    if !(off < 0 || blk < 0 || off + 2880 * (blk + 1) > b.len()) {
        match crate::header::end_in_block(b, off, blk, 0) {
            Some(j) => {},
            None => {
                lemma_end_position_in_range(b, off, blk + 1);
            },
        }
    }
}

/// Discovers one HDU starting at `offset`. Reads only that HDU's header
/// blocks — the data unit's byte range is computed arithmetically from the
/// header, never read.
pub fn discover_one<S: ByteSource + ?Sized>(source: &S, offset: u64, is_primary: bool) -> (r: Result<
    DiscoveredHdu,
    FitsError,
>)
    ensures
        r matches Ok(hdu) ==> ({
            &&& end_position(source.bytes(), offset as int, 0) matches Some((blk, j))
            &&& hdu.header@ == merge_from(cards_upto(source.bytes(), offset as int, blk, j), 0)
            &&& hdu.header_offset == offset
            &&& hdu.header_len == 2880 * (blk + 1)
            &&& hdu.data_offset == offset + hdu.header_len
            &&& data_len_of(hdu.header@) == Ok::<u64, FitsError>(hdu.data_len)
            &&& hdu.data_padded_len == spec_padded_len(hdu.data_len as int)
            &&& hdu.data_offset + hdu.data_padded_len <= u64::MAX
            &&& if is_primary {
                hdu.kind is Primary
            } else {
                match lookup(hdu.header@, "XTENSION"@) {
                    Some(c) => match c.1 {
                        ValueView::String(x) => kind_is(hdu.kind, x),
                        _ => hdu.kind matches HduKind::Unknown(s) && s@.len() == 0,
                    },
                    None => hdu.kind matches HduKind::Unknown(s) && s@.len() == 0,
                }
            }
        }),
        end_position(source.bytes(), offset as int, 0) is None ==> r is Err,
        r == Err::<DiscoveredHdu, FitsError>(FitsError::MissingEnd) ==> end_position(source.bytes(), offset as int, 0)
            is None,
        r matches Err(e) ==> e is MissingEnd || e is Io || match end_position(source.bytes(), offset as int, 0) {
            Some((blk, j)) => {
                let h = merge_from(cards_upto(source.bytes(), offset as int, blk, j), 0);
                match data_len_of(h) {
                    Err(x) => e == x,
                    Ok(n) => e is NaxisOverflow && (spec_padded_len(n as int) > u64::MAX
                        || offset + 2880 * (blk + 1) + spec_padded_len(n as int) > u64::MAX),
                }
            },
            None => false,
        },
{
    let source_len = source.len();
    let header = match Header::read(source, offset) {
        Ok(h) => h,
        Err(e) => {
            return Err(e);
        },
    };
    let header_len = header.byte_len();
    proof {
        lemma_end_position_in_range(source.bytes(), offset as int, 0);
        assert(source.bytes().len() == source_len);
    }
    let data_offset = offset + header_len;
    let data_len = match data_unit_len(&header) {
        Ok(n) => n,
        Err(e) => {
            proof {
                lemma_scan_errors(header@, naxis_count(header@), 1, 1);
            }
            return Err(e);
        },
    };
    let nblocks = crate::block::block_count(data_len);
    if nblocks.checked_mul(2880).is_none() {
        return Err(FitsError::NaxisOverflow);
    }
    let data_padded_len = padded_len(data_len);
    if data_padded_len > u64::MAX - data_offset {
        return Err(FitsError::NaxisOverflow);
    }
    let kind = if is_primary {
        HduKind::Primary
    } else {
        match header.get_string("XTENSION") {
            Some(x) => HduKind::from_xtension(x),
            None => HduKind::Unknown(String::new()),
        }
    };
    Ok(DiscoveredHdu {
        kind,
        header,
        header_offset: offset,
        header_len,
        data_offset,
        data_len,
        data_padded_len,
    })
}

} // verus!
