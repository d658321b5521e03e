//! Table column definitions as a table header declares them: for column
//! `n`, `TFORMn` (and `TBCOLn` in an ASCII table), `TTYPEn`, `TUNITn`,
//! `TNULLn` and `TDIMn`. `TSCALn`/`TZEROn` are floats and are read by the
//! caller with the header's other floating-point values.

use vstd::prelude::*;
use crate::card::{CardView, ValueView, opt_view, parse_int};
use crate::error::{FitsError, is_processing_err};
use crate::header::{Header, lookup, lookup_i64};
use crate::table::{AsciiFormat, BinFormat, ColumnFormat, ascii_format_of, bin_format_of, parse_tdim, tdim_of, trim_bounds};
use crate::text::{chars_of, dec, parse_i64, push_u64, string_from, trim};

verus! {

/// `prefix` followed by the column number `n`.
pub open spec fn kw_n(prefix: Seq<char>, n: int) -> Seq<char> {
    prefix + dec(n as nat)
}

/// The text of the first card named `kw`, when it holds a string.
pub open spec fn str_kw(h: Seq<CardView>, kw: Seq<char>) -> Option<Seq<char>> {
    match lookup(h, kw) {
        Some(c) => match c.1 {
            ValueView::String(s) => Some(s),
            _ => None,
        },
        None => None,
    }
}

/// The layout of column `n`: its `TFORMn` in the binary-table grammar, or
/// in the ASCII-table grammar with its 0-based start `TBCOLn - 1`; `None`
/// when a keyword is missing or a value is refused.
pub open spec fn column_format_of(h: Seq<CardView>, n: int, ascii: bool) -> Option<ColumnFormat> {
    match str_kw(h, kw_n("TFORM"@, n)) {
        None => None,
        Some(tf) => if ascii {
            match lookup_i64(h, kw_n("TBCOL"@, n)) {
                None => None,
                Some(b) => if b - 1 < 0 || b - 1 > usize::MAX {
                    None
                } else {
                    match ascii_format_of(tf) {
                        Some(f) => Some(ColumnFormat::Ascii { start: (b - 1) as usize, format: f }),
                        None => None,
                    }
                },
            }
        } else {
            match bin_format_of(tf) {
                Some(f) => Some(ColumnFormat::Binary(f)),
                None => None,
            }
        },
    }
}

/// Every column from `n` to `count` has a layout.
pub open spec fn all_formats_from(h: Seq<CardView>, n: int, count: int, ascii: bool) -> bool
    decreases count + 1 - n,
{
    if n > count {
        true
    } else {
        column_format_of(h, n, ascii) is Some && all_formats_from(h, n + 1, count, ascii)
    }
}

/// One column's definition, apart from its scaling.
#[derive(Debug, Clone)]
pub struct ColumnKeys {
    /// `TTYPEn` (empty when absent: the standard allows unnamed columns).
    pub name: String,
    /// `TUNITn`.
    pub unit: Option<String>,
    /// `TNULLn` as an integer: parsed from a string value, or an integer
    /// value as it stands.
    pub null_int: Option<i64>,
    /// `TNULLn` when it is a string (ASCII tables write it so).
    pub null_str: Option<String>,
    /// `TDIMn`, fastest-varying axis first.
    pub dim: Option<Vec<usize>>,
    pub format: ColumnFormat,
}

pub open spec fn opt_vec_view(v: Option<Vec<usize>>) -> Option<Seq<usize>> {
    match v {
        Some(x) => Some(x@),
        None => None,
    }
}

/// `c` is column `n` of header `h`.
pub open spec fn keys_of(c: ColumnKeys, h: Seq<CardView>, n: int, ascii: bool) -> bool {
    &&& Some(c.format) == column_format_of(h, n, ascii)
    &&& c.name@ == match str_kw(h, kw_n("TTYPE"@, n)) {
        Some(s) => s,
        None => seq![],
    }
    &&& opt_view(c.unit) == str_kw(h, kw_n("TUNIT"@, n))
    &&& match str_kw(h, kw_n("TNULL"@, n)) {
        Some(s) => opt_view(c.null_str) == Some(s) && c.null_int == match parse_i64(trim(s)) {
            Some(v) => Some(v as i64),
            None => None,
        },
        None => c.null_str is None && c.null_int == lookup_i64(h, kw_n("TNULL"@, n)),
    }
    &&& opt_vec_view(c.dim) == match str_kw(h, kw_n("TDIM"@, n)) {
        Some(s) => tdim_of(s),
        None => None,
    }
}

/// `prefix` and the number `n`, as a keyword.
fn indexed_key(prefix: &str, n: u64) -> (s: String)
    ensures
        s@ == kw_n(prefix@, n as int),
{
    let mut s = string_from(prefix);
    push_u64(&mut s, n);
    s
}

fn copy_str(s: &str) -> (r: String)
    ensures
        r@ == s@,
{
    string_from(s)
}

fn string_kw(header: &Header, kw: &str) -> (r: Option<String>)
    ensures
        opt_view(r) == str_kw(header@, kw@),
{
    match header.get_string(kw) {
        Some(s) => Some(copy_str(s)),
        None => None,
    }
}

/// The layout of column `n` (see [`column_format_of`]).
fn column_format(header: &Header, n: u64, ascii: bool) -> (r: Result<ColumnFormat, FitsError>)
    ensures
        match column_format_of(header@, n as int, ascii) {
            Some(f) => r == Ok::<ColumnFormat, FitsError>(f),
            None => is_processing_err(r),
        },
{
    let tform = match string_kw(header, indexed_key("TFORM", n).as_str()) {
        Some(t) => t,
        None => {
            return Err(FitsError::Processing(string_from("a table column has no TFORM")));
        },
    };
    if ascii {
        let tbcol = match header.get_i64(indexed_key("TBCOL", n).as_str()) {
            Some(b) => b,
            None => {
                return Err(FitsError::Processing(string_from("an ASCII table column has no TBCOL")));
            },
        };
        if tbcol < 1 {
            return Err(FitsError::Processing(string_from("an ASCII table column has a bad TBCOL")));
        }
        let start = (tbcol - 1) as u64;
        if start > usize::MAX as u64 {
            return Err(FitsError::Processing(string_from("an ASCII table column has a bad TBCOL")));
        }
        let cs = chars_of(tform.as_str());
        let (b, e) = trim_bounds(&cs, 0, cs.len());
        proof {
            assert(cs@.subrange(0, cs@.len() as int) =~= cs@);
        }
        if b < e && (cs[b] as u32) >= 128 {
            proof {
                let s = trim(tform@);
                assert(s[0] == cs@[b as int]);
            }
            return Err(FitsError::Processing(string_from("unsupported ASCII table TFORM")));
        }
        proof {
            if trim(tform@).len() > 0 {
                assert(trim(tform@)[0] == cs@[b as int]);
            }
        }
        let format = AsciiFormat::parse(tform.as_str())?;
        Ok(ColumnFormat::Ascii { start: start as usize, format })
    } else {
        let format = BinFormat::parse(tform.as_str())?;
        Ok(ColumnFormat::Binary(format))
    }
}

/// The `TNULLn` of column `n`, as an integer and as text.
fn null_keys(header: &Header, n: u64) -> (r: (Option<i64>, Option<String>))
    ensures
        match str_kw(header@, kw_n("TNULL"@, n as int)) {
            Some(s) => opt_view(r.1) == Some(s) && r.0 == match parse_i64(trim(s)) {
                Some(v) => Some(v as i64),
                None => None,
            },
            None => r.1 is None && r.0 == lookup_i64(header@, kw_n("TNULL"@, n as int)),
        },
{
    let key = indexed_key("TNULL", n);
    match string_kw(header, key.as_str()) {
        Some(s) => {
            let cs = chars_of(s.as_str());
            let (b, e) = trim_bounds(&cs, 0, cs.len());
            proof {
                assert(cs@.subrange(0, cs@.len() as int) =~= cs@);
            }
            let t = crate::card::sub_vec(&cs, b, e);
            (parse_int(&t), Some(s))
        },
        None => (header.get_i64(key.as_str()), None),
    }
}

/// Every column of a table HDU from its header: `TFIELDS` columns, each
/// read as [`keys_of`] says, `ascii` selecting the ASCII-table `TFORM`
/// grammar and requiring `TBCOLn`. Fails with `Processing` when `TFIELDS`
/// is missing or out of range, or when a column's layout is missing or
/// refused.
pub fn parse_columns(header: &Header, ascii: bool) -> (r: Result<Vec<ColumnKeys>, FitsError>)
    ensures
        match lookup_i64(header@, "TFIELDS"@) {
            None => is_processing_err(r),
            Some(t) => if t < 0 || t > usize::MAX || !all_formats_from(header@, 1, t as int, ascii) {
                is_processing_err(r)
            } else {
                r matches Ok(v) && v@.len() == t && forall|i: int|
                    0 <= i < t ==> #[trigger] keys_of(v@[i], header@, i + 1, ascii)
            },
        },
{
    let tfields = match header.get_i64("TFIELDS") {
        Some(t) => t,
        None => {
            return Err(FitsError::Processing(string_from("table HDU has no TFIELDS")));
        },
    };
    if tfields < 0 || tfields as u64 > usize::MAX as u64 {
        return Err(FitsError::Processing(string_from("bad TFIELDS")));
    }
    let count = tfields as u64;
    let mut columns: Vec<ColumnKeys> = Vec::new();
    let mut n: u64 = 1;
    while n <= count
        invariant
            1 <= n <= count + 1,
            count == tfields,
            lookup_i64(header@, "TFIELDS"@) == Some(tfields),
            count <= usize::MAX,
            columns@.len() == n - 1,
            forall|i: int| 0 <= i < n - 1 ==> #[trigger] keys_of(columns@[i], header@, i + 1, ascii),
            forall|k: int| 1 <= k < n ==> #[trigger] column_format_of(header@, k, ascii) is Some,
        decreases count + 1 - n,
    {
        let format = match column_format(header, n, ascii) {
            Ok(f) => f,
            Err(e) => {
                proof {
                    lemma_formats_fail(header@, 1, count as int, n as int, ascii);
                    assert(e is Processing);
                }
                return Err(e);
            },
        };
        let (null_int, null_str) = null_keys(header, n);
        let name = match string_kw(header, indexed_key("TTYPE", n).as_str()) {
            Some(s) => s,
            None => String::new(),
        };
        let unit = string_kw(header, indexed_key("TUNIT", n).as_str());
        let dim = match string_kw(header, indexed_key("TDIM", n).as_str()) {
            Some(s) => parse_tdim(s.as_str()),
            None => None,
        };
        let c = ColumnKeys { name, unit, null_int, null_str, dim, format };
        proof {
            assert(c.name@ == match str_kw(header@, kw_n("TTYPE"@, n as int)) {
                Some(s) => s,
                None => seq![],
            });
        }
        columns.push(c);
        n = n + 1;
    }
    proof {
        lemma_formats_hold(header@, 1, count as int, ascii);
    }
    Ok(columns)
}

/// A column without a layout between `from` and `count` fails them all.
proof fn lemma_formats_fail(h: Seq<CardView>, from: int, count: int, bad: int, ascii: bool)
    requires
        from <= bad <= count,
        column_format_of(h, bad, ascii) is None,
    ensures
        !all_formats_from(h, from, count, ascii),
    decreases bad - from,
{
    if from < bad {
        lemma_formats_fail(h, from + 1, count, bad, ascii);
    }
}

/// Columns that each have a layout all have one.
proof fn lemma_formats_hold(h: Seq<CardView>, from: int, count: int, ascii: bool)
    requires
        forall|k: int| from <= k <= count ==> #[trigger] column_format_of(h, k, ascii) is Some,
    ensures
        all_formats_from(h, from, count, ascii),
    decreases count + 1 - from,
{
    if from <= count {
        lemma_formats_hold(h, from + 1, count, ascii);
    }
}

} // verus!
