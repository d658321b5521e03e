//! Dates read from folder names, file paths and header values. Where a
//! date sits in a text (a `YYYY-MM-DD` or `YYYYMMDD-hhmmss` run, a leaf
//! folder's parent) is this library's logic; the calendar parse of the
//! matched text is chrono's.

use vstd::prelude::*;
use chrono::{Datelike, Timelike};
use crate::header::{Header, lookup};
use crate::card::{ValueView, sub_vec, vec_to_string};
use crate::observation::{LeafFolder, is_decimal_digit, leaf_parts};
use crate::text::{chars_of, string_from};

verus! {

// ---------------------------------------------------------------------------
// Calendar parses (chrono)
// ---------------------------------------------------------------------------

/// What chrono's `NaiveDate::parse_from_str(s, "%Y-%m-%d")` gives for `s`:
/// the year, month and day, or `None`.
pub uninterp spec fn ymd_of(s: Seq<char>) -> Option<(i32, u32, u32)>;

/// What chrono's `NaiveDateTime::parse_from_str(s, "%Y%m%d-%H%M%S")` gives
/// for `s`: year, month, day, hour, minute, second and nanosecond, or
/// `None`.
pub uninterp spec fn ymd_hms_of(s: Seq<char>) -> Option<(i32, u32, u32, u32, u32, u32, u32)>;

/// What chrono's `DateTime::parse_from_rfc3339(s)` gives for `s`: seconds
/// since the Unix epoch, the nanoseconds past them, and the offset from UTC
/// in seconds, or `None`.
pub uninterp spec fn rfc3339_of(s: Seq<char>) -> Option<(i64, u32, i32)>;

/// What chrono's `NaiveDateTime::parse_from_str(s, "%Y-%m-%dT%H:%M:%S%.f")`
/// gives for `s`, read as UTC: seconds since the Unix epoch and the
/// nanoseconds past them, or `None`.
pub uninterp spec fn iso_utc_of(s: Seq<char>) -> Option<(i64, u32)>;

/// Parses `s` as `%Y-%m-%d` with chrono's `NaiveDate::parse_from_str`. The
/// result depends on the text alone and is named `ymd_of`.
#[verifier::external_body]
fn parse_ymd(s: &str) -> (r: Option<(i32, u32, u32)>)
    ensures
        r == ymd_of(s@),
{
    chrono::NaiveDate::parse_from_str(s, "%Y-%m-%d").ok().map(|d| (d.year(), d.month(), d.day()))
}

/// Parses `s` as `%Y%m%d-%H%M%S` with chrono's
/// `NaiveDateTime::parse_from_str`. The result depends on the text alone
/// and is named `ymd_hms_of`.
#[verifier::external_body]
fn parse_ymd_hms(s: &str) -> (r: Option<(i32, u32, u32, u32, u32, u32, u32)>)
    ensures
        r == ymd_hms_of(s@),
{
    chrono::NaiveDateTime::parse_from_str(s, "%Y%m%d-%H%M%S")
        .ok()
        .map(|t| (t.year(), t.month(), t.day(), t.hour(), t.minute(), t.second(), t.nanosecond()))
}

/// Parses `s` with chrono's `DateTime::parse_from_rfc3339`. The result
/// depends on the text alone and is named `rfc3339_of`.
#[verifier::external_body]
fn parse_rfc3339(s: &str) -> (r: Option<(i64, u32, i32)>)
    ensures
        r == rfc3339_of(s@),
{
    chrono::DateTime::parse_from_rfc3339(s)
        .ok()
        .map(|t| (t.timestamp(), t.timestamp_subsec_nanos(), t.offset().local_minus_utc()))
}

/// Parses `s` as `%Y-%m-%dT%H:%M:%S%.f` with chrono's
/// `NaiveDateTime::parse_from_str`, read as UTC. The result depends on the
/// text alone and is named `iso_utc_of`.
#[verifier::external_body]
fn parse_iso_utc(s: &str) -> (r: Option<(i64, u32)>)
    ensures
        r == iso_utc_of(s@),
{
    chrono::NaiveDateTime::parse_from_str(s, "%Y-%m-%dT%H:%M:%S%.f")
        .ok()
        .map(|t| (t.and_utc().timestamp(), t.and_utc().timestamp_subsec_nanos()))
}

// ---------------------------------------------------------------------------
// Header dates
// ---------------------------------------------------------------------------

/// The date-time of a header value: RFC 3339 with its own offset, else an
/// ISO date-time read as UTC (offset zero).
pub open spec fn date_utc_of(s: Seq<char>) -> Option<(i64, u32, i32)> {
    match rfc3339_of(s) {
        Some(t) => Some(t),
        None => match iso_utc_of(s) {
            Some((secs, nanos)) => Some((secs, nanos, 0i32)),
            None => None,
        },
    }
}

/// The date-time in the string value of `keyword`: RFC 3339, or an ISO
/// date-time read as UTC; `None` when the keyword has no string value or
/// neither form parses. The result is seconds since the Unix epoch, the
/// nanoseconds past them, and the offset from UTC in seconds.
pub fn date_utc(header: &Header, keyword: &str) -> (r: Option<(i64, u32, i32)>)
    ensures
        match lookup(header@, keyword@) {
            Some(c) => match c.1 {
                ValueView::String(s) => r == date_utc_of(s),
                _ => r is None,
            },
            None => r is None,
        },
{
    match header.get_string(keyword) {
        None => None,
        Some(s) => match parse_rfc3339(s) {
            Some(t) => Some(t),
            None => match parse_iso_utc(s) {
                Some((secs, nanos)) => Some((secs, nanos, 0)),
                None => None,
            },
        },
    }
}

// ---------------------------------------------------------------------------
// Observation folders
// ---------------------------------------------------------------------------

/// What the path of a leaf observation folder says: its kind, exposure
/// text and filter (from its name), its date (from its parent's name) and
/// its target (its grandparent's name).
#[derive(Debug, Clone, PartialEq, Eq)]
pub struct ObservationParts {
    pub is_raw: bool,
    pub exposure: String,
    pub filter: String,
    pub date: Option<(i32, u32, u32)>,
    pub target: String,
}

/// The parts of an observation whose leaf folder is named `leaf`, inside a
/// date folder named `date_dir` (when that name is text), inside a target
/// folder named `target_dir`; `None` when `leaf` is not a leaf folder name.
pub fn observation_parts(leaf: &str, date_dir: Option<&str>, target_dir: &str) -> (r: Option<ObservationParts>)
    ensures
        match leaf_parts(leaf@) {
            None => r is None,
            Some((k, e, f)) => r matches Some(o) && o.is_raw == (k == "RAW"@) && o.exposure@ == e && o.filter@ == f
                && o.date == (match date_dir {
                Some(d) => ymd_of(d@),
                None => None,
            }) && o.target@ == target_dir@,
        },
{
    match LeafFolder::parse(leaf) {
        None => None,
        Some(l) => {
            let date = match date_dir {
                Some(d) => parse_ymd(d),
                None => None,
            };
            Some(
                ObservationParts {
                    is_raw: l.is_raw,
                    exposure: l.exposure,
                    filter: l.filter,
                    date,
                    target: string_from(target_dir),
                },
            )
        },
    }
}

// ---------------------------------------------------------------------------
// Dates in paths
// ---------------------------------------------------------------------------

/// `s[p..]` starts with decimal digits in the pattern `pat`, where `'d'`
/// stands for a digit and any other character for itself.
pub open spec fn matches_at(s: Seq<char>, p: int, pat: Seq<char>) -> bool {
    &&& 0 <= p
    &&& p + pat.len() <= s.len()
    &&& forall|j: int|
        0 <= j < pat.len() ==> if pat[j] == 'd' {
            is_decimal_digit(#[trigger] s[p + j])
        } else {
            s[p + j] == pat[j]
        }
}

/// The first position at or after `p` where `pat` matches `s`.
pub open spec fn first_match(s: Seq<char>, p: int, pat: Seq<char>) -> Option<int>
    decreases s.len() - p,
{
    if p < 0 || p + pat.len() > s.len() {
        None
    } else if matches_at(s, p, pat) {
        Some(p)
    } else {
        first_match(s, p + 1, pat)
    }
}

/// The `\d{4}-\d{2}-\d{2}` pattern.
pub open spec fn date_pat() -> Seq<char> {
    seq!['d', 'd', 'd', 'd', '-', 'd', 'd', '-', 'd', 'd']
}

/// The `\d{8}-\d{6}` pattern.
pub open spec fn stamp_pat() -> Seq<char> {
    seq!['d', 'd', 'd', 'd', 'd', 'd', 'd', 'd', '-', 'd', 'd', 'd', 'd', 'd', 'd']
}

/// The date-time a path's text names: the first `YYYY-MM-DD` run, at
/// midnight, when it is a calendar date; otherwise the first
/// `YYYYMMDD-hhmmss` run when it is a date and time. The parts are year,
/// month, day, hour, minute, second and nanosecond.
pub open spec fn path_date_of(s: Seq<char>) -> Option<(i32, u32, u32, u32, u32, u32, u32)> {
    let d = match first_match(s, 0, date_pat()) {
        Some(p) => match ymd_of(s.subrange(p, p + 10)) {
            Some((y, m, dd)) => Some((y, m, dd, 0u32, 0u32, 0u32, 0u32)),
            None => None,
        },
        None => None,
    };
    match d {
        Some(t) => Some(t),
        None => match first_match(s, 0, stamp_pat()) {
            Some(p) => ymd_hms_of(s.subrange(p, p + 15)),
            None => None,
        },
    }
}

/// Whether `pat` matches `cs` at `p`.
fn match_at(cs: &Vec<char>, p: usize, pat: &Vec<char>) -> (b: bool)
    requires
        p + pat@.len() <= cs@.len(),
    ensures
        b == matches_at(cs@, p as int, pat@),
{
    let n = cs.len();
    let mut j: usize = 0;
    while j < pat.len()
        invariant
            n == cs@.len(),
            p + pat@.len() <= cs@.len(),
            j <= pat@.len(),
            forall|k: int|
                0 <= k < j ==> if pat@[k] == 'd' {
                    is_decimal_digit(#[trigger] cs@[p + k])
                } else {
                    cs@[p + k] == pat@[k]
                },
        decreases pat@.len() - j,
    {
        let c = cs[p + j];
        let ok = if pat[j] == 'd' {
            crate::observation::decimal_digit(c)
        } else {
            c == pat[j]
        };
        if !ok {
            assert(!(if pat@[j as int] == 'd' {
                is_decimal_digit(cs@[p + j])
            } else {
                cs@[p + j] == pat@[j as int]
            }));
            return false;
        }
        j = j + 1;
    }
    true
}

/// The first position where `pat` matches `cs`.
fn find_match(cs: &Vec<char>, pat: &Vec<char>) -> (r: Option<usize>)
    ensures
        match first_match(cs@, 0, pat@) {
            Some(p) => r matches Some(q) && q == p && p + pat@.len() <= cs@.len(),
            None => r is None,
        },
        r matches Some(q) ==> q + pat@.len() <= cs@.len(),
{
    let n = cs.len();
    if pat.len() > n {
        return None;
    }
    let last = n - pat.len();
    let mut p: usize = 0;
    while p <= last
        invariant
            n == cs@.len(),
            last == n - pat@.len(),
            pat@.len() <= cs@.len(),
            first_match(cs@, 0, pat@) == first_match(cs@, p as int, pat@),
        decreases cs@.len() - p,
    {
        if match_at(cs, p, pat) {
            return Some(p);
        }
        p = p + 1;
    }
    None
}

/// The date-time a path's text names: the first `YYYY-MM-DD` run (at
/// midnight) when chrono reads it as a date, otherwise the first
/// `YYYYMMDD-hhmmss` run when chrono reads it as a date and time.
pub fn path_date(text: &str) -> (r: Option<(i32, u32, u32, u32, u32, u32, u32)>)
    ensures
        r == path_date_of(text@),
{
    let cs = chars_of(text);
    let n = cs.len();
    let dpat: Vec<char> = vec!['d', 'd', 'd', 'd', '-', 'd', 'd', '-', 'd', 'd'];
    let spat: Vec<char> = vec!['d', 'd', 'd', 'd', 'd', 'd', 'd', 'd', '-', 'd', 'd', 'd', 'd', 'd', 'd'];
    assert(dpat@ =~= date_pat());
    assert(spat@ =~= stamp_pat());
    assert(dpat@.len() == 10 && spat@.len() == 15);
    assert(cs@ == text@);
    let d = match find_match(&cs, &dpat) {
        Some(p) => {
            let run = vec_to_string(&sub_vec(&cs, p, p + 10));
            assert(first_match(text@, 0, date_pat()) == Some(p as int));
            assert(run@ =~= text@.subrange(p as int, p + 10));
            match parse_ymd(run.as_str()) {
                Some((y, m, dd)) => Some((y, m, dd, 0u32, 0u32, 0u32, 0u32)),
                None => None,
            }
        },
        None => None,
    };
    match d {
        Some(t) => Some(t),
        None => match find_match(&cs, &spat) {
            Some(p) => {
                let run = vec_to_string(&sub_vec(&cs, p, p + 15));
                assert(first_match(text@, 0, stamp_pat()) == Some(p as int));
                assert(run@ =~= text@.subrange(p as int, p + 15));
                parse_ymd_hms(run.as_str())
            },
            None => None,
        },
    }
}

} // verus!
