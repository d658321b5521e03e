//! An opened FITS frame as the application sees it: its primary HDU, and
//! the facts read from its header (colour, binning), plus the sizing of a
//! display preview.

use vstd::prelude::*;
use std::path::PathBuf;
use crate::card::{CardView, ValueView};
use crate::hdu::DiscoveredHdu;
use crate::header::{Header, lookup, lookup_i64, naxis_count, naxis_scan};
use crate::text::{eq_ic, push_char, push_u64, str_eq_ic};

verus! {

/// The primary HDU of an opened file: its header plus the byte range of
/// its data unit.
#[derive(Debug, Clone)]
pub struct PrimaryHdu(pub DiscoveredHdu);

impl PrimaryHdu {
    pub fn get_header(&self) -> (h: &Header)
        ensures
            *h == self.0.header,
    {
        &self.0.header
    }

    /// Byte offset of the data unit within the file.
    pub fn get_data_unit_byte_offset(&self) -> (n: u64)
        ensures
            n == self.0.data_offset,
    {
        self.0.data_offset
    }

    /// On-disk size of the data unit, including block padding.
    pub fn get_data_unit_byte_size(&self) -> (n: u64)
        ensures
            n == self.0.data_padded_len,
    {
        self.0.data_padded_len
    }
}

/// A file and its primary HDU.
#[derive(Debug)]
pub struct FitsFile {
    pub file_path: PathBuf,
    pub primary_hdu: PrimaryHdu,
}

/// The header declares a colour frame: a non-empty `BAYERPAT`, or more
/// than two (valid) axes.
pub open spec fn is_color_header(h: Seq<CardView>) -> bool {
    let bayer = match lookup(h, "BAYERPAT"@) {
        Some(c) => c.1 matches ValueView::String(s) && s.len() > 0,
        None => false,
    };
    let three_dim = match naxis_scan(h, naxis_count(h), 1, 1) {
        Ok(axes) => axes.len() > 2,
        Err(_) => false,
    };
    bayer || three_dim
}

impl FitsFile {
    /// A file at `path` whose primary HDU is `primary`.
    pub fn from_primary(file_path: PathBuf, primary: DiscoveredHdu) -> (f: FitsFile)
        ensures
            f.file_path == file_path,
            f.primary_hdu.0 == primary,
    {
        FitsFile { file_path, primary_hdu: PrimaryHdu(primary) }
    }

    /// Whether the frame is a colour frame: a Bayer pattern is declared
    /// (`BAYERPAT` not empty) or the data has more than two axes.
    pub fn is_color(&self) -> (b: bool)
        ensures
            b == is_color_header(self.primary_hdu.0.header@),
    {
        let header = self.primary_hdu.get_header();
        let bayer = match header.get_string("BAYERPAT") {
            Some(s) => s.unicode_len() > 0,
            None => false,
        };
        let three_dim = match header.naxis() {
            Ok(n) => n.len() > 2,
            Err(_) => false,
        };
        bayer || three_dim
    }

    /// The keywords of the primary header, in file order.
    pub fn headers(&self) -> (v: Vec<String>)
        ensures
            v@.len() == self.primary_hdu.0.header@.len(),
            forall|i: int| 0 <= i < v@.len() ==> #[trigger] v@[i]@ == self.primary_hdu.0.header@[i].0,
    {
        let cards = self.primary_hdu.get_header().cards();
        let mut v: Vec<String> = Vec::new();
        let mut i: usize = 0;
        while i < cards.len()
            invariant
                crate::header::views(cards@) == self.primary_hdu.0.header@,
                i <= cards@.len(),
                v@.len() == i,
                forall|j: int| 0 <= j < i ==> #[trigger] v@[j]@ == self.primary_hdu.0.header@[j].0,
            decreases cards@.len() - i,
        {
            v.push(crate::text::string_from(cards[i].keyword.as_str()));
            i = i + 1;
        }
        v
    }
}

/// Pixel binning of a frame.
#[derive(Debug, Clone, Copy, PartialEq, Eq, Structural)]
pub struct Binning {
    pub x: u8,
    pub y: u8,
}

impl Default for Binning {
    fn default() -> (b: Binning)
        ensures
            b == (Binning { x: 1, y: 1 }),
    {
        Binning { x: 1, y: 1 }
    }
}

impl Binning {
    /// `XBINNING` and `YBINNING` (one when absent), cut to a byte.
    pub fn from_header(h: &Header) -> (b: Binning)
        ensures
            b.x == (match lookup_i64(h@, "XBINNING"@) {
                Some(v) => v,
                None => 1,
            }) as u8,
            b.y == (match lookup_i64(h@, "YBINNING"@) {
                Some(v) => v,
                None => 1,
            }) as u8,
    {
        let x = match h.get_i64("XBINNING") {
            Some(v) => v,
            None => 1,
        };
        let y = match h.get_i64("YBINNING") {
            Some(v) => v,
            None => 1,
        };
        Binning { x: x as u8, y: y as u8 }
    }

    /// `<x>x<y>`, e.g. `2x2`.
    pub fn display_text(&self) -> (s: String)
        ensures
            s@ == crate::text::dec(self.x as nat) + seq!['x'] + crate::text::dec(self.y as nat),
    {
        let mut s = String::new();
        push_u64(&mut s, self.x as u64);
        push_char(&mut s, 'x');
        push_u64(&mut s, self.y as u64);
        proof {
            assert(s@ =~= crate::text::dec(self.x as nat) + seq!['x'] + crate::text::dec(self.y as nat));
        }
        s
    }
}

// ---------------------------------------------------------------------------
// Display previews
// ---------------------------------------------------------------------------

/// Maximum preview dimension in either axis.
pub const MAX_DISPLAY_DIM: usize = 2048;

/// A decoded, display-ready image with interleaved RGB bytes.
#[derive(Debug, Clone)]
pub struct PreviewImage {
    pub width: usize,
    pub height: usize,
    /// Interleaved RGB bytes, `width * height * 3` of them.
    pub pixels: Vec<u8>,
}

/// The downscale factor that brings the longest axis within
/// [`MAX_DISPLAY_DIM`]: the ceiling of `max_dim / MAX_DISPLAY_DIM`, at
/// least one; for a Bayer frame (debayering halves each axis) made even
/// and at least two.
pub open spec fn spec_preview_factor(max_dim: int, is_bayer: bool) -> int {
    let c = (max_dim + 2047) / 2048;
    let f = if c > 1 { c } else { 1 };
    if is_bayer {
        let even = if f % 2 == 0 { f } else { f + 1 };
        if even > 2 { even } else { 2 }
    } else {
        f
    }
}

/// The preview downscale factor for a frame whose longest axis has
/// `max_dim` pixels.
pub fn preview_factor(max_dim: usize, is_bayer: bool) -> (f: usize)
    ensures
        f == spec_preview_factor(max_dim as int, is_bayer),
{
    let c = max_dim / 2048 + if max_dim % 2048 == 0 { 0 } else { 1 };
    proof {
        assert(c == (max_dim + 2047) / 2048) by (nonlinear_arith)
            requires c == max_dim / 2048 + (if max_dim % 2048 == 0 { 0int } else { 1int }), max_dim >= 0;
    }
    let f = if c > 1 { c } else { 1 };
    if is_bayer {
        let even = if f % 2 == 0 { f } else { f + 1 };
        if even > 2 { even } else { 2 }
    } else {
        f
    }
}

/// Whether a file extension marks a FITS file: `fit` or `fits`, in any
/// letter case.
pub fn is_fits_extension(ext: &str) -> (b: bool)
    ensures
        b == (eq_ic(ext@, "fit"@) || eq_ic(ext@, "fits"@)),
{
    str_eq_ic(ext, "fit") || str_eq_ic(ext, "fits")
}

} // verus!
