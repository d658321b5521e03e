//! The table column formats: parsing binary-table (§7.3) and ASCII-table
//! (§7.2) `TFORMn` values and `TDIMn` axis lists.

use vstd::prelude::*;
use crate::card::{digit_run, find_from};
use crate::error::FitsError;
use crate::header::{BitPix, bitpix_value};
use crate::text::{
    all_digits, chars_of, digits_value, parse_digits, parse_usize, string_from, string_of, trim,
    trim_end_idx, trim_start_idx,
};

verus! {

/// A binary-table element type (the letter in a `TFORMn` value).
#[derive(Debug, Clone, Copy, PartialEq, Eq, Structural)]
pub enum BinType {
    /// `L` — logical, 1 byte (`'T'`/`'F'`/`0`).
    Logical,
    /// `X` — bit array; the repeat count is a bit count.
    Bit,
    /// `B` — unsigned byte.
    Byte,
    /// `I` — 16-bit big-endian integer.
    I16,
    /// `J` — 32-bit big-endian integer.
    I32,
    /// `K` — 64-bit big-endian integer.
    I64,
    /// `A` — ASCII character.
    Char,
    /// `E` — 32-bit IEEE float.
    F32,
    /// `D` — 64-bit IEEE float.
    F64,
    /// `C` — single-precision complex (two `E`).
    C64,
    /// `M` — double-precision complex (two `D`).
    C128,
}

/// The element type a `TFORM` type letter names.
pub open spec fn bin_type_of(c: char) -> Option<BinType> {
    if c == 'L' {
        Some(BinType::Logical)
    } else if c == 'X' {
        Some(BinType::Bit)
    } else if c == 'B' {
        Some(BinType::Byte)
    } else if c == 'I' {
        Some(BinType::I16)
    } else if c == 'J' {
        Some(BinType::I32)
    } else if c == 'K' {
        Some(BinType::I64)
    } else if c == 'A' {
        Some(BinType::Char)
    } else if c == 'E' {
        Some(BinType::F32)
    } else if c == 'D' {
        Some(BinType::F64)
    } else if c == 'C' {
        Some(BinType::C64)
    } else if c == 'M' {
        Some(BinType::C128)
    } else {
        None
    }
}

/// Bytes per element (`Bit` is counted per byte at the field level, so 0
/// here).
pub open spec fn spec_elem_bytes(t: BinType) -> int {
    match t {
        BinType::Logical | BinType::Byte | BinType::Char => 1,
        BinType::I16 => 2,
        BinType::I32 | BinType::F32 => 4,
        BinType::I64 | BinType::F64 | BinType::C64 => 8,
        BinType::C128 => 16,
        BinType::Bit => 0,
    }
}

impl BinType {
    pub fn from_code(c: char) -> (r: Option<BinType>)
        ensures
            r == bin_type_of(c),
    {
        if c == 'L' {
            Some(BinType::Logical)
        } else if c == 'X' {
            Some(BinType::Bit)
        } else if c == 'B' {
            Some(BinType::Byte)
        } else if c == 'I' {
            Some(BinType::I16)
        } else if c == 'J' {
            Some(BinType::I32)
        } else if c == 'K' {
            Some(BinType::I64)
        } else if c == 'A' {
            Some(BinType::Char)
        } else if c == 'E' {
            Some(BinType::F32)
        } else if c == 'D' {
            Some(BinType::F64)
        } else if c == 'C' {
            Some(BinType::C64)
        } else if c == 'M' {
            Some(BinType::C128)
        } else {
            None
        }
    }

    /// Bytes per element (`Bit` is counted per byte at the field level, so
    /// 0 here).
    pub fn elem_bytes(self) -> (n: usize)
        ensures
            n == spec_elem_bytes(self),
    {
        match self {
            BinType::Logical | BinType::Byte | BinType::Char => 1,
            BinType::I16 => 2,
            BinType::I32 | BinType::F32 => 4,
            BinType::I64 | BinType::F64 | BinType::C64 => 8,
            BinType::C128 => 16,
            BinType::Bit => 0,
        }
    }
}

/// The element sizes of binary-table columns are the FITS Standard's: by
/// `TFORM` letter, `L` 1, `X` counted per byte, `B` 1, `I` 2, `J` 4, `K` 8,
/// `A` 1, `E` 4, `D` 8, `C` 8, `M` 16 bytes. The integer and floating-point
/// types are as wide as the image pixels of the matching `BITPIX`
/// (`|BITPIX| / 8` bytes), and a complex element is two floats.
pub proof fn lemma_elem_bytes_standard()
    ensures
        forall|c: char|
            #[trigger] bin_type_of(c) matches Some(t) ==> spec_elem_bytes(t) == (if c == 'L' || c == 'B' || c
                == 'A' {
                1int
            } else if c == 'X' {
                0int
            } else if c == 'I' {
                2int
            } else if c == 'J' || c == 'E' {
                4int
            } else if c == 'K' || c == 'D' || c == 'C' {
                8int
            } else {
                16int
            }),
        8 * spec_elem_bytes(BinType::Byte) == bitpix_value(BitPix::U8),
        8 * spec_elem_bytes(BinType::I16) == bitpix_value(BitPix::I16),
        8 * spec_elem_bytes(BinType::I32) == bitpix_value(BitPix::I32),
        8 * spec_elem_bytes(BinType::I64) == bitpix_value(BitPix::I64),
        8 * spec_elem_bytes(BinType::F32) == -bitpix_value(BitPix::F32),
        8 * spec_elem_bytes(BinType::F64) == -bitpix_value(BitPix::F64),
        spec_elem_bytes(BinType::C64) == 2 * spec_elem_bytes(BinType::F32),
        spec_elem_bytes(BinType::C128) == 2 * spec_elem_bytes(BinType::F64),
{
}

/// A variable-length-array descriptor kind: `P` (32-bit count+offset) or
/// `Q` (64-bit).
#[derive(Debug, Clone, Copy, PartialEq, Eq, Structural)]
pub enum VarKind {
    P,
    Q,
}

impl VarKind {
    /// Descriptor size in the fixed row: `P` is two `i32`, `Q` is two `i64`.
    pub fn descriptor_bytes(self) -> (n: usize)
        ensures
            n == (if self is P { 8int } else { 16int }),
    {
        match self {
            VarKind::P => 8,
            VarKind::Q => 16,
        }
    }
}

/// A parsed `TFORMn` for a binary-table column.
#[derive(Debug, Clone, PartialEq, Eq)]
pub enum BinFormat {
    /// `rT` — `count` fixed elements of `ty` (for `X`, `count` is a bit count).
    Fixed { ty: BinType, count: usize },
    /// `rPt(max)` / `rQt(max)` — a variable-length array of `elem`.
    Var { kind: VarKind, elem: BinType, max: Option<usize> },
}

/// Bytes a column of format `f` occupies in every fixed row.
pub open spec fn spec_field_bytes(f: BinFormat) -> int {
    match f {
        BinFormat::Fixed { ty, count } => if ty is Bit {
            (count + 7) / 8
        } else {
            spec_elem_bytes(ty) * count
        },
        BinFormat::Var { kind, .. } => if kind is P { 8 } else { 16 },
    }
}

/// The optional `(max)` of a variable-length `TFORM`: the text between the
/// first `(` and the next `)`, trimmed, read as a `usize`.
pub open spec fn var_max_of(s: Seq<char>) -> Option<usize> {
    match find_from(s, '(', 0) {
        None => None,
        Some(o) => {
            let after = s.subrange(o + 1, s.len() as int);
            match find_from(after, ')', 0) {
                None => None,
                Some(c) => match parse_usize(trim(after.subrange(0, c))) {
                    Some(v) => Some(v as usize),
                    None => None,
                },
            }
        },
    }
}

/// What a binary-table `TFORM` value parses to; `None` when unsupported.
pub open spec fn bin_format_of(raw: Seq<char>) -> Option<BinFormat> {
    let s = trim(raw);
    let i = digit_run(s, 0);
    let repeat: int = if i == 0 {
        1
    } else if digits_value(s.subrange(0, i)) <= usize::MAX {
        digits_value(s.subrange(0, i))
    } else {
        1
    };
    if i >= s.len() {
        None
    } else if s[i] == 'P' || s[i] == 'Q' {
        if i + 1 < s.len() && bin_type_of(s[i + 1]) is Some {
            Some(
                BinFormat::Var {
                    kind: if s[i] == 'P' { VarKind::P } else { VarKind::Q },
                    elem: bin_type_of(s[i + 1])->Some_0,
                    max: var_max_of(s),
                },
            )
        } else {
            None
        }
    } else {
        match bin_type_of(s[i]) {
            Some(ty) => Some(BinFormat::Fixed { ty, count: repeat as usize }),
            None => None,
        }
    }
}

/// `s.trim()` of `cs[lo..hi]`, as bounds into `cs`.
pub(crate) fn trim_bounds(cs: &Vec<char>, lo: usize, hi: usize) -> (r: (usize, usize))
    requires
        lo <= hi <= cs@.len(),
    ensures
        lo <= r.0 <= r.1 <= hi,
        cs@.subrange(r.0 as int, r.1 as int) == trim(cs@.subrange(lo as int, hi as int)),
{
    let b = trim_start_idx(cs, lo, hi);
    let e = trim_end_idx(cs, b, hi);
    proof {
        let s = cs@.subrange(lo as int, hi as int);
        assert(cs@.subrange(b as int, hi as int) =~= s.subrange(b - lo, s.len() as int));
        assert(cs@.subrange(b as int, e as int) =~= cs@.subrange(b as int, hi as int).subrange(0, e - b));
    }
    (b, e)
}

fn find_in(cs: &Vec<char>, c: char, lo: usize, hi: usize) -> (r: Option<usize>)
    requires
        lo <= hi <= cs@.len(),
    ensures
        match find_from(cs@.subrange(lo as int, hi as int), c, 0) {
            Some(k) => r == Some((lo + k) as usize) && 0 <= k < hi - lo,
            None => r is None,
        },
{
    let ghost s = cs@.subrange(lo as int, hi as int);
    let mut i = lo;
    while i < hi
        invariant
            lo <= i <= hi <= cs@.len(),
            s == cs@.subrange(lo as int, hi as int),
            find_from(s, c, 0) == find_from(s, c, i - lo),
        decreases hi - i,
    {
        assert(s[i - lo] == cs@[i as int]);
        if cs[i] == c {
            return Some(i);
        }
        i = i + 1;
    }
    None
}

/// Parses `cs[lo..hi]` as `str::parse::<usize>()` does.
fn parse_usize_at(cs: &Vec<char>, lo: usize, hi: usize) -> (r: Option<usize>)
    requires
        lo <= hi <= cs@.len(),
    ensures
        match parse_usize(cs@.subrange(lo as int, hi as int)) {
            Some(v) => r == Some(v as usize),
            None => r is None,
        },
{
    let ghost s = cs@.subrange(lo as int, hi as int);
    let start = if lo < hi && cs[lo] == '+' { lo + 1 } else { lo };
    assert(start == lo + 1 ==> cs@.subrange(start as int, hi as int) =~= s.drop_first());
    assert(start == lo ==> cs@.subrange(start as int, hi as int) =~= s);
    match parse_digits(cs, start, hi, usize::MAX as u64) {
        Some(v) => Some(v as usize),
        None => None,
    }
}

impl BinFormat {
    /// Bytes this column occupies in every fixed row.
    pub fn field_bytes(&self) -> (n: usize)
        requires
            spec_field_bytes(*self) <= usize::MAX,
        ensures
            n == spec_field_bytes(*self),
    {
        match self {
            BinFormat::Fixed { ty, count } => {
                if *ty == BinType::Bit {
                    *count / 8 + if *count % 8 == 0 { 0 } else { 1 }
                } else {
                    ty.elem_bytes() * *count
                }
            },
            BinFormat::Var { kind, .. } => kind.descriptor_bytes(),
        }
    }

    /// Parses a binary-table `TFORMn` value: an optional repeat count, the
    /// type letter, and for `P`/`Q` the element type and an optional
    /// `(max)`.
    pub fn parse(raw: &str) -> (r: Result<BinFormat, FitsError>)
        ensures
            match bin_format_of(raw@) {
                Some(f) => r == Ok::<BinFormat, FitsError>(f),
                None => r matches Err(e) && e is Processing,
            },
    {
        let cs = chars_of(raw);
        let (lo, hi) = trim_bounds(&cs, 0, cs.len());
        assert(cs@.subrange(0, cs@.len() as int) =~= raw@);
        let s = crate::text::string_of(&cs, lo, hi);
        let sv = chars_of(s.as_str());
        let ghost t = sv@;
        assert(t == trim(raw@));
        let n = sv.len();
        let mut i: usize = 0;
        while i < n && '0' <= sv[i] && sv[i] <= '9'
            invariant
                i <= n == t.len(),
                sv@ == t,
                digit_run(t, 0) == digit_run(t, i as int),
                forall|j: int| 0 <= j < i ==> crate::text::is_digit(#[trigger] t[j]),
            decreases n - i,
        {
            i = i + 1;
        }
        let repeat: usize = if i == 0 {
            1
        } else {
            proof {
                assert(all_digits(t.subrange(0, i as int)));
            }
            match parse_digits(&sv, 0, i, usize::MAX as u64) {
                Some(v) => v as usize,
                None => 1,
            }
        };
        if i >= n {
            return Err(FitsError::Processing(string_from("unsupported TFORM")));
        }
        let code = sv[i];
        if code == 'P' || code == 'Q' {
            let kind = if code == 'P' { VarKind::P } else { VarKind::Q };
            if i + 1 >= n {
                return Err(FitsError::Processing(string_from("unsupported TFORM")));
            }
            let elem = match BinType::from_code(sv[i + 1]) {
                Some(e) => e,
                None => {
                    return Err(FitsError::Processing(string_from("unsupported TFORM")));
                },
            };
            let max = match find_in(&sv, '(', 0, n) {
                None => None,
                Some(o) => {
                    assert(sv@.subrange(0, n as int) =~= t);
                    match find_in(&sv, ')', o + 1, n) {
                        None => None,
                        Some(c) => {
                            let (a, b) = trim_bounds(&sv, o + 1, c);
                            proof {
                                let after = t.subrange(o + 1, t.len() as int);
                                assert(after.subrange(0, c - o - 1) =~= sv@.subrange(o + 1, c as int));
                            }
                            parse_usize_at(&sv, a, b)
                        },
                    }
                },
            };
            proof {
                assert(sv@.subrange(0, n as int) =~= t);
            }
            return Ok(BinFormat::Var { kind, elem, max });
        }
        match BinType::from_code(code) {
            Some(ty) => Ok(BinFormat::Fixed { ty, count: repeat }),
            None => Err(FitsError::Processing(string_from("unsupported TFORM"))),
        }
    }
}

/// A parsed ASCII-`TABLE` `TFORMn` (Fortran-style, §7.2.5).
#[derive(Debug, Clone, Copy, PartialEq, Eq)]
pub enum AsciiFormat {
    /// `Aw`
    Char(usize),
    /// `Iw`
    Int(usize),
    /// `Fw.d`
    Fixed { width: usize, decimals: usize },
    /// `Ew.d` / `Dw.d`
    Exp { width: usize, decimals: usize },
}

/// What an ASCII-table `TFORM` value parses to; `None` when unsupported.
pub open spec fn ascii_format_of(raw: Seq<char>) -> Option<AsciiFormat> {
    let s = trim(raw);
    if s.len() == 0 {
        None
    } else {
        let rest = s.drop_first();
        let (w, d) = match find_from(rest, '.', 0) {
            Some(k) => (rest.subrange(0, k), Some(rest.subrange(k + 1, rest.len() as int))),
            None => (rest, None),
        };
        match parse_usize(trim(w)) {
            None => None,
            Some(width) => {
                let decimals: int = match d {
                    Some(dt) => match parse_usize(trim(dt)) {
                        Some(v) => v,
                        None => 0,
                    },
                    None => 0,
                };
                let width = width as usize;
                let decimals = decimals as usize;
                if s[0] == 'A' {
                    Some(AsciiFormat::Char(width))
                } else if s[0] == 'I' {
                    Some(AsciiFormat::Int(width))
                } else if s[0] == 'F' {
                    Some(AsciiFormat::Fixed { width, decimals })
                } else if s[0] == 'E' || s[0] == 'D' {
                    Some(AsciiFormat::Exp { width, decimals })
                } else {
                    None
                }
            },
        }
    }
}

impl AsciiFormat {
    pub fn width(&self) -> (w: usize)
        ensures
            w == match *self {
                AsciiFormat::Char(w) => w,
                AsciiFormat::Int(w) => w,
                AsciiFormat::Fixed { width, .. } => width,
                AsciiFormat::Exp { width, .. } => width,
            },
    {
        match *self {
            AsciiFormat::Char(w) | AsciiFormat::Int(w) => w,
            AsciiFormat::Fixed { width, .. } | AsciiFormat::Exp { width, .. } => width,
        }
    }

    /// Parses an ASCII-table `TFORMn` value: a type letter, a width, and
    /// for `F`/`E`/`D` a `.decimals` part (zero when absent or unreadable).
    pub fn parse(raw: &str) -> (r: Result<AsciiFormat, FitsError>)
        requires
            trim(raw@).len() > 0 ==> (trim(raw@)[0] as u32) < 128,
        ensures
            match ascii_format_of(raw@) {
                Some(f) => r == Ok::<AsciiFormat, FitsError>(f),
                None => r matches Err(e) && e is Processing,
            },
    {
        let cs = chars_of(raw);
        let (lo, hi) = trim_bounds(&cs, 0, cs.len());
        assert(cs@.subrange(0, cs@.len() as int) =~= raw@);
        let ghost t = cs@.subrange(lo as int, hi as int);
        if lo == hi {
            return Err(FitsError::Processing(string_from("unsupported ASCII TFORM")));
        }
        let code = cs[lo];
        let ghost rest = t.drop_first();
        assert(rest =~= cs@.subrange(lo + 1, hi as int));
        let (wlo, whi, dot) = match find_in(&cs, '.', lo + 1, hi) {
            Some(k) => (lo + 1, k, Some(k)),
            None => (lo + 1, hi, None),
        };
        let (a, b) = trim_bounds(&cs, wlo, whi);
        proof {
            match find_from(rest, '.', 0) {
                Some(k) => {
                    assert(rest.subrange(0, k) =~= cs@.subrange(wlo as int, whi as int));
                    assert(rest.subrange(k + 1, rest.len() as int) =~= cs@.subrange(lo + 1 + k + 1, hi as int));
                },
                None => {},
            }
        }
        let width = match parse_usize_at(&cs, a, b) {
            Some(w) => w,
            None => {
                return Err(FitsError::Processing(string_from("unsupported ASCII TFORM")));
            },
        };
        let decimals: usize = match dot {
            Some(k) => {
                let (c, d) = trim_bounds(&cs, k + 1, hi);
                match parse_usize_at(&cs, c, d) {
                    Some(v) => v,
                    None => 0,
                }
            },
            None => 0,
        };
        if code == 'A' {
            Ok(AsciiFormat::Char(width))
        } else if code == 'I' {
            Ok(AsciiFormat::Int(width))
        } else if code == 'F' {
            Ok(AsciiFormat::Fixed { width, decimals })
        } else if code == 'E' || code == 'D' {
            Ok(AsciiFormat::Exp { width, decimals })
        } else {
            Err(FitsError::Processing(string_from("unsupported ASCII TFORM")))
        }
    }
}

/// How a column's field is laid out in a row.
#[derive(Debug, Clone, PartialEq, Eq)]
pub enum ColumnFormat {
    Binary(BinFormat),
    /// ASCII column: 0-based start byte within the row (`TBCOLn - 1`).
    Ascii { start: usize, format: AsciiFormat },
}

/// `s` split at every `,`.
pub open spec fn split_commas(s: Seq<char>) -> Seq<Seq<char>>
    decreases s.len(),
{
    match find_from(s, ',', 0) {
        None => seq![s],
        Some(k) => if 0 <= k < s.len() {
            seq![s.subrange(0, k)] + split_commas(s.subrange(k + 1, s.len() as int))
        } else {
            seq![s]
        },
    }
}

/// Each piece, trimmed, read as a `usize`; `None` if any piece fails.
pub open spec fn parse_all_usize(pieces: Seq<Seq<char>>) -> Option<Seq<usize>>
    decreases pieces.len(),
{
    if pieces.len() == 0 {
        Some(seq![])
    } else {
        match parse_usize(trim(pieces[0])) {
            None => None,
            Some(v) => match parse_all_usize(pieces.drop_first()) {
                None => None,
                Some(rest) => Some(seq![v as usize] + rest),
            },
        }
    }
}

/// The axis list a `TDIMn` value `(d1,d2,...)` declares.
pub open spec fn tdim_of(raw: Seq<char>) -> Option<Seq<usize>> {
    let t = trim(raw);
    if t.len() >= 2 && t[0] == '(' && t.last() == ')' {
        parse_all_usize(split_commas(t.subrange(1, t.len() - 1)))
    } else if t.len() == 1 && t[0] == '(' {
        None
    } else {
        None
    }
}

/// Parses `(d1,d2,...)` from a `TDIMn` value.
pub fn parse_tdim(raw: &str) -> (r: Option<Vec<usize>>)
    ensures
        match tdim_of(raw@) {
            Some(v) => r matches Some(x) && x@ == v,
            None => r is None,
        },
{
    let cs = chars_of(raw);
    let (lo, hi) = trim_bounds(&cs, 0, cs.len());
    assert(cs@.subrange(0, cs@.len() as int) =~= raw@);
    let ghost t = cs@.subrange(lo as int, hi as int);
    if !(hi - lo >= 2 && cs[lo] == '(' && cs[hi - 1] == ')') {
        return None;
    }
    let ilo = lo + 1;
    let ihi = hi - 1;
    assert(t.subrange(1, t.len() - 1) =~= cs@.subrange(ilo as int, ihi as int));
    let mut out: Vec<usize> = Vec::new();
    let mut start = ilo;
    loop
        invariant
            ilo <= start <= ihi,
            ihi <= cs@.len(),
            tdim_of(raw@) == parse_all_usize(split_commas(cs@.subrange(ilo as int, ihi as int))),
            parse_all_usize(split_commas(cs@.subrange(ilo as int, ihi as int))) == match parse_all_usize(
                split_commas(cs@.subrange(start as int, ihi as int)),
            ) {
                None => None,
                Some(rest) => Some(out@ + rest),
            },
        decreases ihi - start,
    {
        let ghost s = cs@.subrange(start as int, ihi as int);
        match find_in(&cs, ',', start, ihi) {
            None => {
                assert(split_commas(s) == seq![s]);
                let (a, b) = trim_bounds(&cs, start, ihi);
                match parse_usize_at(&cs, a, b) {
                    None => {
                        assert(seq![s][0] == s);
                        assert(parse_all_usize(seq![s]) is None);
                        return None;
                    },
                    Some(v) => {
                        assert(seq![s].drop_first() =~= Seq::<Seq<char>>::empty());
                        assert(seq![s][0] == s);
                        assert(parse_all_usize(Seq::<Seq<char>>::empty()) == Some(Seq::<usize>::empty()));
                        assert(seq![v] + Seq::<usize>::empty() =~= seq![v]);
                        assert(parse_all_usize(seq![s]) == Some(seq![v]));
                        let ghost before = out@;
                        out.push(v);
                        assert(out@ =~= before + seq![v]);
                        return Some(out);
                    },
                }
            },
            Some(k) => {
                let ghost piece = s.subrange(0, k - start);
                let ghost rest = s.subrange(k - start + 1, s.len() as int);
                assert(piece =~= cs@.subrange(start as int, k as int));
                assert(rest =~= cs@.subrange(k + 1, ihi as int));
                assert(split_commas(s) == seq![piece] + split_commas(rest));
                assert((seq![piece] + split_commas(rest))[0] == piece);
                assert((seq![piece] + split_commas(rest)).drop_first() =~= split_commas(rest));
                let (a, b) = trim_bounds(&cs, start, k);
                match parse_usize_at(&cs, a, b) {
                    None => {
                        return None;
                    },
                    Some(v) => {
                        let ghost before = out@;
                        out.push(v);
                        proof {
                            match parse_all_usize(split_commas(rest)) {
                                None => {},
                                Some(r2) => {
                                    assert(before + (seq![v] + r2) =~= out@ + r2);
                                },
                            }
                        }
                        start = k + 1;
                    },
                }
            },
        }
    }
}

} // verus!
