//! Observation folder names: a leaf folder is `RAW_<exposure>_<filter>`
//! (raw frames) or `PP_<exposure>_<filter>` (pre-processed frames), e.g.
//! `RAW_300_Ha` or `PP_120_OIII_Narrow`; the filter may itself hold
//! underscores.

use vstd::prelude::*;
use crate::card::{sub_vec, vec_to_string};
use crate::text::{chars_of, string_from};

verus! {

/// A decimal digit in the Unicode sense (general category `Nd`), as the
/// pattern class `\d` matches it: ASCII `0`–`9` and the other scripts'
/// runs of ten digits.
pub open spec fn is_decimal_digit(c: char) -> bool {
    ('\u{30}' <= c && c <= '\u{39}')
        || ('\u{660}' <= c && c <= '\u{669}')
        || ('\u{6f0}' <= c && c <= '\u{6f9}')
        || ('\u{7c0}' <= c && c <= '\u{7c9}')
        || ('\u{966}' <= c && c <= '\u{96f}')
        || ('\u{9e6}' <= c && c <= '\u{9ef}')
        || ('\u{a66}' <= c && c <= '\u{a6f}')
        || ('\u{ae6}' <= c && c <= '\u{aef}')
        || ('\u{b66}' <= c && c <= '\u{b6f}')
        || ('\u{be6}' <= c && c <= '\u{bef}')
        || ('\u{c66}' <= c && c <= '\u{c6f}')
        || ('\u{ce6}' <= c && c <= '\u{cef}')
        || ('\u{d66}' <= c && c <= '\u{d6f}')
        || ('\u{de6}' <= c && c <= '\u{def}')
        || ('\u{e50}' <= c && c <= '\u{e59}')
        || ('\u{ed0}' <= c && c <= '\u{ed9}')
        || ('\u{f20}' <= c && c <= '\u{f29}')
        || ('\u{1040}' <= c && c <= '\u{1049}')
        || ('\u{1090}' <= c && c <= '\u{1099}')
        || ('\u{17e0}' <= c && c <= '\u{17e9}')
        || ('\u{1810}' <= c && c <= '\u{1819}')
        || ('\u{1946}' <= c && c <= '\u{194f}')
        || ('\u{19d0}' <= c && c <= '\u{19d9}')
        || ('\u{1a80}' <= c && c <= '\u{1a89}')
        || ('\u{1a90}' <= c && c <= '\u{1a99}')
        || ('\u{1b50}' <= c && c <= '\u{1b59}')
        || ('\u{1bb0}' <= c && c <= '\u{1bb9}')
        || ('\u{1c40}' <= c && c <= '\u{1c49}')
        || ('\u{1c50}' <= c && c <= '\u{1c59}')
        || ('\u{a620}' <= c && c <= '\u{a629}')
        || ('\u{a8d0}' <= c && c <= '\u{a8d9}')
        || ('\u{a900}' <= c && c <= '\u{a909}')
        || ('\u{a9d0}' <= c && c <= '\u{a9d9}')
        || ('\u{a9f0}' <= c && c <= '\u{a9f9}')
        || ('\u{aa50}' <= c && c <= '\u{aa59}')
        || ('\u{abf0}' <= c && c <= '\u{abf9}')
        || ('\u{ff10}' <= c && c <= '\u{ff19}')
        || ('\u{104a0}' <= c && c <= '\u{104a9}')
        || ('\u{10d30}' <= c && c <= '\u{10d39}')
        || ('\u{10d40}' <= c && c <= '\u{10d49}')
        || ('\u{11066}' <= c && c <= '\u{1106f}')
        || ('\u{110f0}' <= c && c <= '\u{110f9}')
        || ('\u{11136}' <= c && c <= '\u{1113f}')
        || ('\u{111d0}' <= c && c <= '\u{111d9}')
        || ('\u{112f0}' <= c && c <= '\u{112f9}')
        || ('\u{11450}' <= c && c <= '\u{11459}')
        || ('\u{114d0}' <= c && c <= '\u{114d9}')
        || ('\u{11650}' <= c && c <= '\u{11659}')
        || ('\u{116c0}' <= c && c <= '\u{116c9}')
        || ('\u{116d0}' <= c && c <= '\u{116e3}')
        || ('\u{11730}' <= c && c <= '\u{11739}')
        || ('\u{118e0}' <= c && c <= '\u{118e9}')
        || ('\u{11950}' <= c && c <= '\u{11959}')
        || ('\u{11bf0}' <= c && c <= '\u{11bf9}')
        || ('\u{11c50}' <= c && c <= '\u{11c59}')
        || ('\u{11d50}' <= c && c <= '\u{11d59}')
        || ('\u{11da0}' <= c && c <= '\u{11da9}')
        || ('\u{11f50}' <= c && c <= '\u{11f59}')
        || ('\u{16130}' <= c && c <= '\u{16139}')
        || ('\u{16a60}' <= c && c <= '\u{16a69}')
        || ('\u{16ac0}' <= c && c <= '\u{16ac9}')
        || ('\u{16b50}' <= c && c <= '\u{16b59}')
        || ('\u{16d70}' <= c && c <= '\u{16d79}')
        || ('\u{1ccf0}' <= c && c <= '\u{1ccf9}')
        || ('\u{1d7ce}' <= c && c <= '\u{1d7ff}')
        || ('\u{1e140}' <= c && c <= '\u{1e149}')
        || ('\u{1e2f0}' <= c && c <= '\u{1e2f9}')
        || ('\u{1e4f0}' <= c && c <= '\u{1e4f9}')
        || ('\u{1e5f1}' <= c && c <= '\u{1e5fa}')
        || ('\u{1e950}' <= c && c <= '\u{1e959}')
        || ('\u{1fbf0}' <= c && c <= '\u{1fbf9}')
}

/// Whether `c` is a Unicode decimal digit.
pub fn decimal_digit(c: char) -> (b: bool)
    ensures
        b == is_decimal_digit(c),
{
    ('\u{30}' <= c && c <= '\u{39}')
        || ('\u{660}' <= c && c <= '\u{669}')
        || ('\u{6f0}' <= c && c <= '\u{6f9}')
        || ('\u{7c0}' <= c && c <= '\u{7c9}')
        || ('\u{966}' <= c && c <= '\u{96f}')
        || ('\u{9e6}' <= c && c <= '\u{9ef}')
        || ('\u{a66}' <= c && c <= '\u{a6f}')
        || ('\u{ae6}' <= c && c <= '\u{aef}')
        || ('\u{b66}' <= c && c <= '\u{b6f}')
        || ('\u{be6}' <= c && c <= '\u{bef}')
        || ('\u{c66}' <= c && c <= '\u{c6f}')
        || ('\u{ce6}' <= c && c <= '\u{cef}')
        || ('\u{d66}' <= c && c <= '\u{d6f}')
        || ('\u{de6}' <= c && c <= '\u{def}')
        || ('\u{e50}' <= c && c <= '\u{e59}')
        || ('\u{ed0}' <= c && c <= '\u{ed9}')
        || ('\u{f20}' <= c && c <= '\u{f29}')
        || ('\u{1040}' <= c && c <= '\u{1049}')
        || ('\u{1090}' <= c && c <= '\u{1099}')
        || ('\u{17e0}' <= c && c <= '\u{17e9}')
        || ('\u{1810}' <= c && c <= '\u{1819}')
        || ('\u{1946}' <= c && c <= '\u{194f}')
        || ('\u{19d0}' <= c && c <= '\u{19d9}')
        || ('\u{1a80}' <= c && c <= '\u{1a89}')
        || ('\u{1a90}' <= c && c <= '\u{1a99}')
        || ('\u{1b50}' <= c && c <= '\u{1b59}')
        || ('\u{1bb0}' <= c && c <= '\u{1bb9}')
        || ('\u{1c40}' <= c && c <= '\u{1c49}')
        || ('\u{1c50}' <= c && c <= '\u{1c59}')
        || ('\u{a620}' <= c && c <= '\u{a629}')
        || ('\u{a8d0}' <= c && c <= '\u{a8d9}')
        || ('\u{a900}' <= c && c <= '\u{a909}')
        || ('\u{a9d0}' <= c && c <= '\u{a9d9}')
        || ('\u{a9f0}' <= c && c <= '\u{a9f9}')
        || ('\u{aa50}' <= c && c <= '\u{aa59}')
        || ('\u{abf0}' <= c && c <= '\u{abf9}')
        || ('\u{ff10}' <= c && c <= '\u{ff19}')
        || ('\u{104a0}' <= c && c <= '\u{104a9}')
        || ('\u{10d30}' <= c && c <= '\u{10d39}')
        || ('\u{10d40}' <= c && c <= '\u{10d49}')
        || ('\u{11066}' <= c && c <= '\u{1106f}')
        || ('\u{110f0}' <= c && c <= '\u{110f9}')
        || ('\u{11136}' <= c && c <= '\u{1113f}')
        || ('\u{111d0}' <= c && c <= '\u{111d9}')
        || ('\u{112f0}' <= c && c <= '\u{112f9}')
        || ('\u{11450}' <= c && c <= '\u{11459}')
        || ('\u{114d0}' <= c && c <= '\u{114d9}')
        || ('\u{11650}' <= c && c <= '\u{11659}')
        || ('\u{116c0}' <= c && c <= '\u{116c9}')
        || ('\u{116d0}' <= c && c <= '\u{116e3}')
        || ('\u{11730}' <= c && c <= '\u{11739}')
        || ('\u{118e0}' <= c && c <= '\u{118e9}')
        || ('\u{11950}' <= c && c <= '\u{11959}')
        || ('\u{11bf0}' <= c && c <= '\u{11bf9}')
        || ('\u{11c50}' <= c && c <= '\u{11c59}')
        || ('\u{11d50}' <= c && c <= '\u{11d59}')
        || ('\u{11da0}' <= c && c <= '\u{11da9}')
        || ('\u{11f50}' <= c && c <= '\u{11f59}')
        || ('\u{16130}' <= c && c <= '\u{16139}')
        || ('\u{16a60}' <= c && c <= '\u{16a69}')
        || ('\u{16ac0}' <= c && c <= '\u{16ac9}')
        || ('\u{16b50}' <= c && c <= '\u{16b59}')
        || ('\u{16d70}' <= c && c <= '\u{16d79}')
        || ('\u{1ccf0}' <= c && c <= '\u{1ccf9}')
        || ('\u{1d7ce}' <= c && c <= '\u{1d7ff}')
        || ('\u{1e140}' <= c && c <= '\u{1e149}')
        || ('\u{1e2f0}' <= c && c <= '\u{1e2f9}')
        || ('\u{1e4f0}' <= c && c <= '\u{1e4f9}')
        || ('\u{1e5f1}' <= c && c <= '\u{1e5fa}')
        || ('\u{1e950}' <= c && c <= '\u{1e959}')
        || ('\u{1fbf0}' <= c && c <= '\u{1fbf9}')
}

/// The end of the run of decimal digits of `s` starting at `i`.
pub open spec fn digit_run_end(s: Seq<char>, i: int) -> int
    decreases s.len() - i,
{
    if i < 0 || i >= s.len() || !is_decimal_digit(s[i]) {
        i
    } else {
        digit_run_end(s, i + 1)
    }
}

/// Where the exposure of a leaf name ends, the exposure starting at `p`:
/// digits, then optionally a `.` and more digits, followed by `_`.
pub open spec fn exposure_end(s: Seq<char>, p: int) -> Option<int> {
    let d1 = digit_run_end(s, p);
    if d1 == p || d1 >= s.len() {
        None
    } else if s[d1] == '_' {
        Some(d1)
    } else if s[d1] == '.' {
        let d2 = digit_run_end(s, d1 + 1);
        if d2 > d1 + 1 && d2 < s.len() && s[d2] == '_' {
            Some(d2)
        } else {
            None
        }
    } else {
        None
    }
}

/// A leaf folder name `KIND_EXPOSURE_FILTER` taken apart: `KIND` is `RAW`
/// or `PP`; `EXPOSURE` is decimal digits, optionally followed by `.` and
/// more digits; `FILTER` is the non-empty rest, holding no newline (it may
/// hold underscores). `None` for any other name. This is what the pattern
/// `^(RAW|PP)_(\d+(?:\.\d+)?)_(.+)$` captures.
pub open spec fn leaf_parts(name: Seq<char>) -> Option<(Seq<char>, Seq<char>, Seq<char>)> {
    let (kind, p): (Seq<char>, int) = if name.len() >= 4 && name.subrange(0, 4) == "RAW_"@ {
        ("RAW"@, 4)
    } else if name.len() >= 3 && name.subrange(0, 3) == "PP_"@ {
        ("PP"@, 3)
    } else {
        (seq![], 0)
    };
    if p == 0 {
        None
    } else {
        match exposure_end(name, p) {
            None => None,
            Some(e) => {
                let filter = name.subrange(e + 1, name.len() as int);
                if filter.len() > 0 && !filter.contains('\n') {
                    Some((kind, name.subrange(p, e), filter))
                } else {
                    None
                }
            },
        }
    }
}

/// The end of the digit run of `cs` from `i`.
fn digit_run(cs: &Vec<char>, i: usize) -> (r: usize)
    requires
        i <= cs@.len(),
    ensures
        r == digit_run_end(cs@, i as int),
        i <= r <= cs@.len(),
    decreases cs@.len() - i,
{
    if i < cs.len() && decimal_digit(cs[i]) {
        digit_run(cs, i + 1)
    } else {
        i
    }
}

/// Whether `cs[from..]` holds a newline.
fn has_newline(cs: &Vec<char>, from: usize) -> (b: bool)
    requires
        from <= cs@.len(),
    ensures
        b == cs@.subrange(from as int, cs@.len() as int).contains('\n'),
{
    let ghost t = cs@.subrange(from as int, cs@.len() as int);
    let mut i = from;
    while i < cs.len()
        invariant
            from <= i <= cs@.len(),
            t == cs@.subrange(from as int, cs@.len() as int),
            forall|k: int| 0 <= k < i - from ==> t[k] != '\n',
        decreases cs@.len() - i,
    {
        if cs[i] == '\n' {
            assert(t[i - from] == '\n');
            return true;
        }
        i = i + 1;
    }
    false
}

/// Whether `cs` starts with `prefix`.
fn starts_with(cs: &Vec<char>, prefix: &str) -> (b: bool)
    ensures
        b == (cs@.len() >= prefix@.len() && cs@.subrange(0, prefix@.len() as int) == prefix@),
{
    let p = chars_of(prefix);
    if p.len() > cs.len() {
        return false;
    }
    let mut i: usize = 0;
    while i < p.len()
        invariant
            p@ == prefix@,
            p@.len() <= cs@.len(),
            i <= p@.len(),
            forall|k: int| 0 <= k < i ==> cs@[k] == p@[k],
        decreases p.len() - i,
    {
        if cs[i] != p[i] {
            assert(cs@.subrange(0, p@.len() as int)[i as int] != p@[i as int]);
            return false;
        }
        i = i + 1;
    }
    assert(cs@.subrange(0, p@.len() as int) =~= p@);
    true
}

/// A leaf observation folder's name, taken apart.
#[derive(Debug, Clone, PartialEq, Eq)]
pub struct LeafFolder {
    /// `RAW_…` (raw frames) rather than `PP_…` (pre-processed frames).
    pub is_raw: bool,
    /// The exposure text, e.g. `300` or `2.5`.
    pub exposure: String,
    /// The filter, e.g. `Ha` or `OIII_Narrow`.
    pub filter: String,
}

impl LeafFolder {
    /// The parts of a leaf folder name, or `None` when `name` is not one.
    pub fn parse(name: &str) -> (r: Option<LeafFolder>)
        ensures
            match leaf_parts(name@) {
                Some((k, e, f)) => r matches Some(l) && l.is_raw == (k == "RAW"@) && l.exposure@ == e && l.filter@ == f,
                None => r is None,
            },
    {
        proof {
            reveal_strlit("RAW_");
            reveal_strlit("PP_");
            reveal_strlit("RAW");
            reveal_strlit("PP");
        }
        let cs = chars_of(name);
        let is_raw = starts_with(&cs, "RAW_");
        let p: usize = if is_raw {
            4
        } else if starts_with(&cs, "PP_") {
            3
        } else {
            return None;
        };
        let d1 = digit_run(&cs, p);
        if d1 == p || d1 >= cs.len() {
            return None;
        }
        let e: usize = if cs[d1] == '_' {
            d1
        } else if cs[d1] == '.' {
            let d2 = digit_run(&cs, d1 + 1);
            if d2 > d1 + 1 && d2 < cs.len() && cs[d2] == '_' {
                d2
            } else {
                return None;
            }
        } else {
            return None;
        };
        assert(exposure_end(name@, p as int) == Some(e as int));
        if e + 1 >= cs.len() || has_newline(&cs, e + 1) {
            return None;
        }
        let exposure = vec_to_string(&sub_vec(&cs, p, e));
        let filter = vec_to_string(&sub_vec(&cs, e + 1, cs.len()));
        assert("RAW"@ != "PP"@) by {
            assert("RAW"@.len() != "PP"@.len());
        }
        Some(LeafFolder { is_raw, exposure, filter })
    }

    /// The name of the sibling folder of the other kind, with the exposure
    /// spelled `exposure_text`: `PP_…` for a raw folder, `RAW_…` for a
    /// pre-processed one.
    pub fn sibling_name(&self, exposure_text: &str) -> (s: String)
        ensures
            s@ == (if self.is_raw { "PP_"@ } else { "RAW_"@ }) + exposure_text@ + seq!['_'] + self.filter@,
    {
        let mut s = if self.is_raw { string_from("PP_") } else { string_from("RAW_") };
        crate::text::push_str(&mut s, exposure_text);
        crate::text::push_char(&mut s, '_');
        crate::text::push_str(&mut s, self.filter.as_str());
        s
    }
}

} // verus!
