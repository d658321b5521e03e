//! FITS card images: parsing and serialization of the 80-byte records that
//! make up a header (FITS Standard 4.0 §4.1 "Overview of header card
//! images", §4.2 "Keyword", §4.3 "Value", §4.4 "Comment").
//!
//! Parsing is permissive by design: a card that doesn't conform to any
//! recognized syntax becomes `Value::Invalid(raw)` rather than failing the
//! whole file, since real-world FITS files routinely bend the standard in
//! ways that shouldn't be fatal to reading everything else in them.
//!
//! A floating-point value is carried as the text of its literal (with a
//! Fortran `D` exponent marker rewritten to `E`), exactly as it stands in
//! the card; converting it to a binary float is left to the caller.

use vstd::prelude::*;
use vstd::utf8::encode_utf8;
use crate::text::{
    all_digits, char_is_ws, chars_of, upper, dec_int, int_chars, str_eq_ic, eq_ic, eq_ic_at, is_digit, is_ws, parse_digits, parse_i64, string_from,
    string_of, trim, trim_end, trim_end_idx, trim_start, trim_start_idx,
};

verus! {

/// A parsed keyword/value/comment triple.
#[derive(Debug, Clone, PartialEq)]
pub struct Card {
    /// The keyword, trimmed of trailing padding. For `HIERARCH` convention
    /// cards this is the full extended keyword, e.g.
    /// `"HIERARCH ESO OBS ID"`, not just the eight-byte `"HIERARCH"` field.
    pub keyword: String,
    pub value: Value,
    pub comment: Option<String>,
}

/// The value carried by a card. `Invalid` is the permissive fallback for
/// text that doesn't parse as any of the standard's value types.
#[derive(Debug, Clone, PartialEq)]
pub enum Value {
    Logical(bool),
    Integer(i64),
    /// A floating-point literal, as text (`D` exponents rewritten to `E`).
    Float(String),
    String(String),
    /// Real and imaginary parts, each a floating-point literal as text.
    Complex(String, String),
    /// No value token present (an `=` card whose value field is blank).
    Undefined,
    /// Free text carried by a `COMMENT`, `HISTORY`, or blank-keyword card —
    /// these have no `=` and no separate comment field; the whole of
    /// columns 9-80 is the payload.
    Commentary(String),
    /// A value field that did not parse as any recognized syntax. Carries
    /// the raw, trimmed text of the value field so nothing is lost.
    Invalid(String),
}

/// What a [`Value`] holds, with text as character sequences.
pub enum ValueView {
    Logical(bool),
    Integer(i64),
    Float(Seq<char>),
    String(Seq<char>),
    Complex(Seq<char>, Seq<char>),
    Undefined,
    Commentary(Seq<char>),
    Invalid(Seq<char>),
}

impl View for Value {
    type V = ValueView;

    open spec fn view(&self) -> ValueView {
        match self {
            Value::Logical(b) => ValueView::Logical(*b),
            Value::Integer(i) => ValueView::Integer(*i),
            Value::Float(t) => ValueView::Float(t@),
            Value::String(s) => ValueView::String(s@),
            Value::Complex(re, im) => ValueView::Complex(re@, im@),
            Value::Undefined => ValueView::Undefined,
            Value::Commentary(t) => ValueView::Commentary(t@),
            Value::Invalid(t) => ValueView::Invalid(t@),
        }
    }
}

pub open spec fn opt_view(o: Option<String>) -> Option<Seq<char>> {
    match o {
        Some(s) => Some(s@),
        None => None,
    }
}

/// A card's keyword, value and comment.
pub type CardView = (Seq<char>, ValueView, Option<Seq<char>>);

impl View for Card {
    type V = CardView;

    open spec fn view(&self) -> CardView {
        (self.keyword@, self.value@, opt_view(self.comment))
    }
}

pub const KEYWORD_FIELD: usize = 8;
pub const CARD_LEN: usize = 80;

// ---------------------------------------------------------------------------
// The card grammar, as spec functions over characters
// ---------------------------------------------------------------------------

/// The card's bytes read as Latin-1 characters.
pub open spec fn latin1(b: Seq<u8>) -> Seq<char> {
    Seq::new(b.len(), |i: int| b[i] as char)
}

/// Index of the first `c` in `s` at or after `i`.
pub open spec fn find_from(s: Seq<char>, c: char, i: int) -> Option<int>
    decreases s.len() - i,
{
    if i < 0 || i >= s.len() {
        None
    } else if s[i] == c {
        Some(i)
    } else {
        find_from(s, c, i + 1)
    }
}

/// Index of the first space or `/` in `s` at or after `i` (the end of an
/// unquoted value token), or `s.len()`.
pub open spec fn token_end(s: Seq<char>, i: int) -> int
    decreases s.len() - i,
{
    if i < 0 || i >= s.len() {
        s.len() as int
    } else if s[i] == ' ' || s[i] == '/' {
        i
    } else {
        token_end(s, i + 1)
    }
}

/// Scans a quoted string from just after its opening quote: `''` stands
/// for one quote, a lone quote closes. Returns the content (trailing spaces
/// trimmed) and the text after the closing quote.
pub open spec fn quoted_scan(s: Seq<char>, i: int, acc: Seq<char>) -> (Seq<char>, Seq<char>)
    decreases s.len() - i,
{
    if i < 0 || i >= s.len() {
        (trim_end(acc), seq![])
    } else if s[i] == '\'' {
        if i + 1 < s.len() && s[i + 1] == '\'' {
            quoted_scan(s, i + 2, acc.push('\''))
        } else {
            (trim_end(acc), s.subrange(i + 1, s.len() as int))
        }
    } else {
        quoted_scan(s, i + 1, acc.push(s[i]))
    }
}

/// The comment after a value: the text after a leading `/`, trimmed, when
/// not empty.
pub open spec fn extract_comment(after: Seq<char>) -> Option<Seq<char>> {
    let a = trim_start(after);
    if a.len() > 0 && a[0] == '/' {
        let t = trim(a.drop_first());
        if t.len() == 0 {
            None
        } else {
            Some(t)
        }
    } else {
        None
    }
}

/// `D`/`d` exponent markers rewritten to `E`.
pub open spec fn normalize_exp(s: Seq<char>) -> Seq<char> {
    Seq::new(s.len(), |i: int| if s[i] == 'D' || s[i] == 'd' { 'E' } else { s[i] })
}

/// Index of the first non-digit of `s` at or after `i`.
pub open spec fn digit_run(s: Seq<char>, i: int) -> int
    decreases s.len() - i,
{
    if i < 0 || i >= s.len() || !is_digit(s[i]) {
        i
    } else {
        digit_run(s, i + 1)
    }
}

/// `e` or `E`, an optional sign, and at least one digit.
pub open spec fn is_exponent(e: Seq<char>) -> bool {
    &&& e.len() >= 2
    &&& e[0] == 'e' || e[0] == 'E'
    &&& {
        let d = if e[1] == '+' || e[1] == '-' { e.subrange(2, e.len() as int) } else { e.subrange(1, e.len() as int) };
        d.len() > 0 && all_digits(d)
    }
}

/// `Digit+ | Digit+ '.' Digit* | Digit* '.' Digit+`, then an optional
/// exponent.
pub open spec fn is_decimal_lit(s: Seq<char>) -> bool {
    let a = digit_run(s, 0);
    let b = if a < s.len() && s[a] == '.' { a + 1 } else { a };
    let c = if a < s.len() && s[a] == '.' { digit_run(s, a + 1) } else { a };
    a + (c - b) > 0 && (c == s.len() || is_exponent(s.subrange(c, s.len() as int)))
}

/// The strings `str::parse::<f64>` accepts, as its documentation gives
/// them: an optional sign, then `inf`, `infinity`, `nan` (any case) or a
/// decimal number.
pub open spec fn is_float_lit(s: Seq<char>) -> bool {
    let body = if s.len() > 0 && (s[0] == '+' || s[0] == '-') { s.drop_first() } else { s };
    eq_ic(body, "inf"@) || eq_ic(body, "infinity"@) || eq_ic(body, "nan"@) || is_decimal_lit(body)
}

/// A parenthesised complex value `(re, im)` at the start of `t`, with its
/// comment.
pub open spec fn complex_of(t: Seq<char>) -> Option<(ValueView, Option<Seq<char>>)> {
    if t.len() > 0 && t[0] == '(' {
        let s = t.drop_first();
        match find_from(s, ')', 0) {
            None => None,
            Some(close) => {
                let inner = s.subrange(0, close);
                let after = s.subrange(close + 1, s.len() as int);
                match find_from(inner, ',', 0) {
                    None => None,
                    Some(k) => {
                        let re = normalize_exp(trim(inner.subrange(0, k)));
                        let im = normalize_exp(trim(inner.subrange(k + 1, inner.len() as int)));
                        if is_float_lit(re) && is_float_lit(im) {
                            Some((ValueView::Complex(re, im), extract_comment(after)))
                        } else {
                            None
                        }
                    },
                }
            },
        }
    } else {
        None
    }
}

/// The value and comment of a value field, starting right after the
/// keyword prefix.
pub open spec fn value_field(rest: Seq<char>) -> (ValueView, Option<Seq<char>>) {
    let t = trim_start(rest);
    if t.len() > 0 && t[0] == '\'' {
        let q = quoted_scan(t.drop_first(), 0, seq![]);
        (ValueView::String(q.0), extract_comment(q.1))
    } else if complex_of(t) is Some {
        complex_of(t)->Some_0
    } else {
        let te = token_end(t, 0);
        let token = t.subrange(0, te);
        let comment = extract_comment(t.subrange(te, t.len() as int));
        if token.len() == 0 {
            (ValueView::Undefined, comment)
        } else if eq_ic(token, "T"@) {
            (ValueView::Logical(true), comment)
        } else if eq_ic(token, "F"@) {
            (ValueView::Logical(false), comment)
        } else if parse_i64(token) is Some {
            (ValueView::Integer(parse_i64(token)->Some_0 as i64), comment)
        } else if is_float_lit(normalize_exp(token)) {
            (ValueView::Float(normalize_exp(token)), comment)
        } else {
            (ValueView::Invalid(trim_end(t)), None)
        }
    }
}

/// Commentary keywords: blank, `COMMENT`, `HISTORY`, `END`.
pub open spec fn is_commentary_kw(kw: Seq<char>) -> bool {
    kw.len() == 0 || eq_ic(kw, "COMMENT"@) || eq_ic(kw, "HISTORY"@) || eq_ic(kw, "END"@)
}

/// What an 80-character card line parses to.
pub open spec fn card_of(line: Seq<char>) -> (Seq<char>, ValueView, Option<Seq<char>>) {
    let kw = trim_end(line.subrange(0, 8));
    if is_commentary_kw(kw) {
        (kw, ValueView::Commentary(trim_end(line.subrange(8, line.len() as int))), None)
    } else if eq_ic(kw, "HIERARCH"@) {
        match find_from(line, '=', 0) {
            Some(eq) => {
                let vf = value_field(line.subrange(eq + 1, line.len() as int));
                (trim(line.subrange(0, eq)), vf.0, vf.1)
            },
            None => ("HIERARCH"@, ValueView::Invalid(trim_end(line)), None),
        }
    } else if line[8] == '=' {
        let vf = value_field(line.subrange(9, line.len() as int));
        (kw, vf.0, vf.1)
    } else if eq_ic(kw, "CONTINUE"@) {
        let vf = value_field(line.subrange(8, line.len() as int));
        (kw, vf.0, vf.1)
    } else {
        (kw, ValueView::Invalid(trim_end(line)), None)
    }
}

/// A float literal starts with a sign, a digit, a point, or the first
/// letter of `inf`, `infinity` or `nan`.
pub proof fn lemma_float_lit_start(s: Seq<char>)
    requires
        is_float_lit(s),
    ensures
        s.len() > 0,
        s[0] != '\'' && s[0] != '(' && s[0] != ' ' && s[0] != '/',
{
    reveal_strlit("inf");
    reveal_strlit("infinity");
    reveal_strlit("nan");
    let body = if s.len() > 0 && (s[0] == '+' || s[0] == '-') { s.drop_first() } else { s };
    if s.len() == 0 || !(s[0] == '+' || s[0] == '-') {
        assert(body == s);
        if s.len() > 0 && (s[0] == '\'' || s[0] == '(' || s[0] == ' ' || s[0] == '/') {
            assert(!eq_ic(body, "inf"@)) by {
                assert(upper(body[0]) != upper("inf"@[0]));
            }
            assert(!eq_ic(body, "infinity"@)) by {
                assert(upper(body[0]) != upper("infinity"@[0]));
            }
            assert(!eq_ic(body, "nan"@)) by {
                assert(upper(body[0]) != upper("nan"@[0]));
            }
            assert(digit_run(body, 0) == 0);
        }
        if s.len() == 0 {
            assert(digit_run(body, 0) == 0);
        }
    }
}

/// A one-character float literal is a digit.
pub proof fn lemma_float_lit_letter(s: Seq<char>)
    requires
        is_float_lit(s),
        s.len() == 1,
    ensures
        is_digit(s[0]),
{
    reveal_strlit("inf");
    reveal_strlit("infinity");
    reveal_strlit("nan");
    if s[0] == '+' || s[0] == '-' {
        let body = s.drop_first();
        assert(body.len() == 0);
        assert(digit_run(body, 0) == 0);
    } else if !is_digit(s[0]) {
        assert(digit_run(s, 0) == 0);
    }
}

// ---------------------------------------------------------------------------
// Serialization, as spec functions
// ---------------------------------------------------------------------------

/// Quotes doubled, as inside a FITS string.
pub open spec fn escape_quotes(s: Seq<char>) -> Seq<char>
    decreases s.len(),
{
    if s.len() == 0 {
        seq![]
    } else if s.last() == '\'' {
        escape_quotes(s.drop_last()) + seq!['\'', '\'']
    } else {
        escape_quotes(s.drop_last()).push(s.last())
    }
}

/// The text of a value in its value field.
pub open spec fn value_text(v: ValueView) -> Seq<char> {
    match v {
        ValueView::Logical(b) => if b { seq!['T'] } else { seq!['F'] },
        ValueView::Integer(i) => dec_int(i as int),
        ValueView::Float(t) => t,
        ValueView::String(s) => seq!['\''] + escape_quotes(s) + seq!['\''],
        ValueView::Complex(re, im) => seq!['('] + re + seq![',', ' '] + im + seq![')'],
        ValueView::Undefined => seq![],
        ValueView::Commentary(t) => t,
        ValueView::Invalid(t) => t,
    }
}

/// `s` padded with spaces to at least `n` characters (`{:<n}`).
pub open spec fn pad_to(s: Seq<char>, n: int) -> Seq<char> {
    if s.len() >= n {
        s
    } else {
        s + Seq::new((n - s.len()) as nat, |i: int| ' ')
    }
}

/// The first whitespace-separated word of `s`, or empty.
pub open spec fn first_word(s: Seq<char>) -> Seq<char> {
    let t = trim_start(s);
    t.subrange(0, ws_index(t, 0))
}

/// Index of the first whitespace character of `s` at or after `i`, or
/// `s.len()`.
pub open spec fn ws_index(s: Seq<char>, i: int) -> int
    decreases s.len() - i,
{
    if i < 0 || i >= s.len() {
        s.len() as int
    } else if is_ws(s[i]) {
        i
    } else {
        ws_index(s, i + 1)
    }
}

/// Keywords written in the `HIERARCH` form `KEYWORD = value`.
pub open spec fn is_hierarch_kw(kw: Seq<char>) -> bool {
    encode_utf8(kw).len() > 8 || eq_ic(kw, "HIERARCH"@) || eq_ic(first_word(kw), "HIERARCH"@)
}

pub open spec fn comment_text(c: Option<Seq<char>>) -> Seq<char> {
    match c {
        Some(t) => seq![' ', '/', ' '] + t,
        None => seq![],
    }
}

/// `base` followed by ` / comment` when that fits in 80 bytes; otherwise
/// the comment is left out.
pub open spec fn with_comment(base: Seq<char>, cm: Option<Seq<char>>) -> Seq<char> {
    if encode_utf8(base + comment_text(cm)).len() <= 80 {
        base + comment_text(cm)
    } else {
        base
    }
}

/// The text of a card before it is cut or padded to 80 bytes.
pub open spec fn card_line(c: (Seq<char>, ValueView, Option<Seq<char>>)) -> Seq<char> {
    let (kw, v, cm) = c;
    if v is Commentary {
        pad_to(kw, 8) + v->Commentary_0
    } else if eq_ic(kw, "CONTINUE"@) {
        "CONTINUE  "@ + value_text(v)
    } else if is_hierarch_kw(kw) {
        with_comment(kw + seq![' ', '=', ' '] + value_text(v), cm)
    } else {
        with_comment(pad_to(kw, 8) + seq!['=', ' '] + value_text(v), cm)
    }
}

/// The UTF-8 bytes of `line`, cut to 80 and padded with spaces.
pub open spec fn card_bytes(line: Seq<char>) -> Seq<u8> {
    let b = encode_utf8(line);
    Seq::new(80, |i: int| if i < b.len() { b[i] } else { 32u8 })
}

// ---------------------------------------------------------------------------
// Exec helpers
// ---------------------------------------------------------------------------

/// `cs[lo..hi]` as a vector of its own.
pub(crate) fn sub_vec(cs: &Vec<char>, lo: usize, hi: usize) -> (v: Vec<char>)
    requires
        lo <= hi <= cs@.len(),
    ensures
        v@ == cs@.subrange(lo as int, hi as int),
{
    let mut v: Vec<char> = Vec::new();
    let mut i = lo;
    while i < hi
        invariant
            lo <= i <= hi <= cs@.len(),
            v@ == cs@.subrange(lo as int, i as int),
        decreases hi - i,
    {
        v.push(cs[i]);
        i = i + 1;
        assert(v@ =~= cs@.subrange(lo as int, i as int));
    }
    v
}

pub(crate) fn find_char(s: &Vec<char>, c: char, from: usize) -> (r: Option<usize>)
    ensures
        match find_from(s@, c, from as int) {
            Some(k) => r == Some(k as usize) && from <= k < s@.len(),
            None => r is None,
        },
{
    let mut i = from;
    while i < s.len()
        invariant
            from <= i,
            find_from(s@, c, from as int) == find_from(s@, c, i as int),
        decreases s.len() - i,
    {
        if s[i] == c {
            return Some(i);
        }
        i = i + 1;
    }
    None
}

fn find_token_end(s: &Vec<char>) -> (r: usize)
    ensures
        r == token_end(s@, 0),
        r <= s@.len(),
{
    let mut i: usize = 0;
    while i < s.len()
        invariant
            i <= s@.len(),
            token_end(s@, 0) == token_end(s@, i as int),
        decreases s.len() - i,
    {
        if s[i] == ' ' || s[i] == '/' {
            return i;
        }
        i = i + 1;
    }
    i
}

fn find_ws(s: &Vec<char>) -> (r: usize)
    ensures
        r == ws_index(s@, 0),
        r <= s@.len(),
{
    let mut i: usize = 0;
    while i < s.len()
        invariant
            i <= s@.len(),
            ws_index(s@, 0) == ws_index(s@, i as int),
        decreases s.len() - i,
    {
        if char_is_ws(s[i]) {
            return i;
        }
        i = i + 1;
    }
    i
}

/// `s.trim_start()` as a vector.
pub(crate) fn trimmed_start(s: &Vec<char>) -> (v: Vec<char>)
    ensures
        v@ == trim_start(s@),
{
    let b = trim_start_idx(s, 0, s.len());
    assert(s@.subrange(0, s@.len() as int) =~= s@);
    sub_vec(s, b, s.len())
}

/// `s.trim_end()` as a vector.
pub(crate) fn trimmed_end(s: &Vec<char>) -> (v: Vec<char>)
    ensures
        v@ == trim_end(s@),
{
    let e = trim_end_idx(s, 0, s.len());
    assert(s@.subrange(0, s@.len() as int) =~= s@);
    sub_vec(s, 0, e)
}

/// `s.trim()` as a vector.
pub(crate) fn trimmed(s: &Vec<char>) -> (v: Vec<char>)
    ensures
        v@ == trim(s@),
{
    let t = trimmed_start(s);
    trimmed_end(&t)
}

pub(crate) fn vec_to_string(v: &Vec<char>) -> (s: String)
    ensures
        s@ == v@,
{
    let s = string_of(v, 0, v.len());
    assert(v@.subrange(0, v@.len() as int) =~= v@);
    s
}

/// Scans a quoted string from just after its opening quote (see
/// [`quoted_scan`]).
fn parse_quoted_string(s: &Vec<char>) -> (r: (String, Vec<char>))
    ensures
        (r.0@, r.1@) == quoted_scan(s@, 0, seq![]),
{
    let mut content: Vec<char> = Vec::new();
    let mut i: usize = 0;
    while i < s.len()
        invariant
            i <= s@.len() + 1,
            quoted_scan(s@, 0, seq![]) == quoted_scan(s@, i as int, content@),
        decreases s.len() - i,
    {
        if s[i] == '\'' {
            if i + 1 < s.len() && s[i + 1] == '\'' {
                content.push('\'');
                i = i + 2;
                continue;
            }
            let t = trimmed_end(&content);
            let after = sub_vec(s, i + 1, s.len());
            return (vec_to_string(&t), after);
        }
        content.push(s[i]);
        i = i + 1;
    }
    let t = trimmed_end(&content);
    let after: Vec<char> = Vec::new();
    assert(after@ =~= seq![]);
    (vec_to_string(&t), after)
}

/// The comment after a value (see [`extract_comment`]).
fn comment_after(after: &Vec<char>) -> (r: Option<String>)
    ensures
        opt_view(r) == extract_comment(after@),
{
    let a = trimmed_start(after);
    if a.len() > 0 && a[0] == '/' {
        let rest = sub_vec(&a, 1, a.len());
        assert(rest@ =~= a@.drop_first());
        let t = trimmed(&rest);
        if t.len() == 0 {
            None
        } else {
            Some(vec_to_string(&t))
        }
    } else {
        None
    }
}

/// `D`/`d` exponent markers rewritten to `E`.
fn normalized(s: &Vec<char>) -> (v: Vec<char>)
    ensures
        v@ == normalize_exp(s@),
{
    let mut v: Vec<char> = Vec::new();
    let mut i: usize = 0;
    while i < s.len()
        invariant
            i <= s@.len(),
            v@ == normalize_exp(s@).subrange(0, i as int),
        decreases s.len() - i,
    {
        let c = s[i];
        v.push(if c == 'D' || c == 'd' { 'E' } else { c });
        i = i + 1;
        assert(v@ =~= normalize_exp(s@).subrange(0, i as int));
    }
    assert(normalize_exp(s@).subrange(0, s@.len() as int) =~= normalize_exp(s@));
    v
}

fn digit_run_at(s: &Vec<char>, from: usize) -> (r: usize)
    requires
        from <= s@.len(),
    ensures
        r == digit_run(s@, from as int),
        from <= r <= s@.len(),
{
    let mut i = from;
    while i < s.len() && '0' <= s[i] && s[i] <= '9'
        invariant
            from <= i <= s@.len(),
            digit_run(s@, from as int) == digit_run(s@, i as int),
        decreases s.len() - i,
    {
        i = i + 1;
    }
    i
}

/// Whether `s[c..]` is an exponent (see [`is_exponent`]).
fn exponent_at(s: &Vec<char>, c: usize) -> (b: bool)
    requires
        c <= s@.len(),
    ensures
        b == is_exponent(s@.subrange(c as int, s@.len() as int)),
{
    let e = sub_vec(s, c, s.len());
    if e.len() < 2 || !(e[0] == 'e' || e[0] == 'E') {
        return false;
    }
    let start: usize = if e[1] == '+' || e[1] == '-' { 2 } else { 1 };
    let d = sub_vec(&e, start, e.len());
    if d.len() == 0 {
        return false;
    }
    let k = digit_run_at(&d, 0);
    proof {
        if k < d@.len() {
            assert(!is_digit(d@[k as int])) by {
                lemma_digit_run_stop(d@, 0);
            }
        } else {
            lemma_digit_run_all(d@, 0);
        }
    }
    k == d.len()
}

proof fn lemma_digit_run_stop(s: Seq<char>, i: int)
    requires
        0 <= i <= s.len(),
    ensures
        i <= digit_run(s, i) <= s.len(),
        digit_run(s, i) < s.len() ==> !is_digit(s[digit_run(s, i)]),
        forall|j: int| i <= j < digit_run(s, i) ==> is_digit(#[trigger] s[j]),
    decreases s.len() - i,
{
    if i < s.len() && is_digit(s[i]) {
        lemma_digit_run_stop(s, i + 1);
    }
}

proof fn lemma_digit_run_all(s: Seq<char>, i: int)
    requires
        0 <= i <= s.len(),
        digit_run(s, i) == s.len(),
    ensures
        forall|j: int| i <= j < s.len() ==> is_digit(#[trigger] s[j]),
        i == 0 ==> all_digits(s),
{
    lemma_digit_run_stop(s, i);
}

/// Whether `s` is a decimal literal (see [`is_decimal_lit`]).
fn decimal_lit(s: &Vec<char>) -> (b: bool)
    ensures
        b == is_decimal_lit(s@),
{
    let a = digit_run_at(s, 0);
    let dot = a < s.len() && s[a] == '.';
    let b: usize = if dot { a + 1 } else { a };
    let c: usize = if dot { digit_run_at(s, a + 1) } else { a };
    if a + (c - b) == 0 {
        return false;
    }
    if c == s.len() {
        return true;
    }
    exponent_at(s, c)
}

/// Whether `s` is a floating-point literal (see [`is_float_lit`]).
fn float_lit(s: &Vec<char>) -> (b: bool)
    ensures
        b == is_float_lit(s@),
{
    let signed = s.len() > 0 && (s[0] == '+' || s[0] == '-');
    let start: usize = if signed { 1 } else { 0 };
    let body = sub_vec(s, start, s.len());
    assert(signed ==> body@ =~= s@.drop_first());
    assert(!signed ==> body@ =~= s@);
    assert(body@.subrange(0, body@.len() as int) =~= body@);
    if eq_ic_at(&body, 0, body.len(), "inf") || eq_ic_at(&body, 0, body.len(), "infinity") || eq_ic_at(
        &body,
        0,
        body.len(),
        "nan",
    ) {
        return true;
    }
    decimal_lit(&body)
}

/// `str::parse::<i64>()` of a token (see [`parse_i64`]).
pub(crate) fn parse_int(t: &Vec<char>) -> (r: Option<i64>)
    ensures
        match parse_i64(t@) {
            Some(v) => r == Some(v as i64),
            None => r is None,
        },
{
    let n = t.len();
    if n == 0 {
        return None;
    }
    let neg = t[0] == '-';
    let start: usize = if t[0] == '-' || t[0] == '+' { 1 } else { 0 };
    let limit: u64 = if neg { 0x8000_0000_0000_0000 } else { 0x7FFF_FFFF_FFFF_FFFF };
    assert(start == 1 ==> t@.subrange(1, n as int) =~= t@.drop_first());
    assert(start == 0 ==> t@.subrange(0, n as int) =~= t@);
    match parse_digits(t, start, n, limit) {
        None => None,
        Some(v) => {
            if neg {
                Some((0 - (v as i128)) as i64)
            } else {
                Some(v as i64)
            }
        },
    }
}

/// A complex value at the start of `t` (see [`complex_of`]).
fn parse_complex(t: &Vec<char>) -> (r: Option<(Value, Option<String>)>)
    ensures
        match complex_of(t@) {
            Some((v, c)) => r matches Some(x) && x.0@ == v && opt_view(x.1) == c,
            None => r is None,
        },
{
    if t.len() == 0 || t[0] != '(' {
        return None;
    }
    let s = sub_vec(t, 1, t.len());
    assert(s@ =~= t@.drop_first());
    let close = match find_char(&s, ')', 0) {
        None => {
            return None;
        },
        Some(k) => k,
    };
    let inner = sub_vec(&s, 0, close);
    let after = sub_vec(&s, close + 1, s.len());
    let k = match find_char(&inner, ',', 0) {
        None => {
            return None;
        },
        Some(k) => k,
    };
    let re_raw = sub_vec(&inner, 0, k);
    let im_raw = sub_vec(&inner, k + 1, inner.len());
    let re_t = trimmed(&re_raw);
    let im_t = trimmed(&im_raw);
    let re = normalized(&re_t);
    let im = normalized(&im_t);
    if float_lit(&re) && float_lit(&im) {
        let comment = comment_after(&after);
        Some((Value::Complex(vec_to_string(&re), vec_to_string(&im)), comment))
    } else {
        None
    }
}

/// Parses the value field starting right after the keyword prefix (i.e.
/// after `"KEYWORD = "` or, for `CONTINUE`, right after the keyword field).
/// Returns the parsed value and an optional trailing comment.
fn parse_value_field(rest: &Vec<char>) -> (r: (Value, Option<String>))
    ensures
        (r.0@, opt_view(r.1)) == value_field(rest@),
{
    let t = trimmed_start(rest);
    if t.len() > 0 && t[0] == '\'' {
        let s = sub_vec(&t, 1, t.len());
        assert(s@ =~= t@.drop_first());
        let (content, after) = parse_quoted_string(&s);
        let comment = comment_after(&after);
        return (Value::String(content), comment);
    }
    match parse_complex(&t) {
        Some(x) => {
            return x;
        },
        None => {},
    }
    let te = find_token_end(&t);
    let token = sub_vec(&t, 0, te);
    let after = sub_vec(&t, te, t.len());
    let comment = comment_after(&after);
    assert(token@.subrange(0, token@.len() as int) =~= token@);
    if token.len() == 0 {
        return (Value::Undefined, comment);
    }
    if eq_ic_at(&token, 0, token.len(), "T") {
        return (Value::Logical(true), comment);
    }
    if eq_ic_at(&token, 0, token.len(), "F") {
        return (Value::Logical(false), comment);
    }
    match parse_int(&token) {
        Some(i) => {
            return (Value::Integer(i), comment);
        },
        None => {},
    }
    let norm = normalized(&token);
    if float_lit(&norm) {
        return (Value::Float(vec_to_string(&norm)), comment);
    }
    let raw = trimmed_end(&t);
    (Value::Invalid(vec_to_string(&raw)), None)
}

impl Card {
    pub fn new(keyword: String, value: Value, comment: Option<String>) -> (c: Card)
        ensures
            c.keyword == keyword,
            c.value == value,
            c.comment == comment,
    {
        Card { keyword, value, comment }
    }

    /// Parses one 80-byte card image. Never fails — anything that doesn't
    /// conform becomes `Value::Invalid`. Bytes are read as Latin-1
    /// characters, so non-ASCII bytes are carried through as opaque text.
    pub fn parse(bytes: &[u8; 80]) -> (c: Card)
        ensures
            c@ == card_of(latin1(bytes@)),
    {
        let mut line: Vec<char> = Vec::new();
        let mut i: usize = 0;
        while i < 80
            invariant
                i <= 80,
                bytes@.len() == 80,
                line@ == latin1(bytes@).subrange(0, i as int),
            decreases 80 - i,
        {
            line.push(bytes[i] as char);
            i = i + 1;
            assert(line@ =~= latin1(bytes@).subrange(0, i as int));
        }
        assert(line@ =~= latin1(bytes@));
        let ghost l = line@;
        let kw_end = trim_end_idx(&line, 0, KEYWORD_FIELD);
        let kw = sub_vec(&line, 0, kw_end);
        assert(kw@ == trim_end(l.subrange(0, 8)));
        assert(kw@.subrange(0, kw@.len() as int) =~= kw@);
        let kwl = kw.len();
        if kwl == 0 || eq_ic_at(&kw, 0, kwl, "COMMENT") || eq_ic_at(&kw, 0, kwl, "HISTORY") || eq_ic_at(
            &kw,
            0,
            kwl,
            "END",
        ) {
            let text_end = trim_end_idx(&line, KEYWORD_FIELD, 80);
            let text = sub_vec(&line, KEYWORD_FIELD, text_end);
            assert(text@ =~= trim_end(l.subrange(8, 80)));
            return Card {
                keyword: vec_to_string(&kw),
                value: Value::Commentary(vec_to_string(&text)),
                comment: None,
            };
        }
        if eq_ic_at(&kw, 0, kwl, "HIERARCH") {
            return Self::parse_hierarch(&line);
        }
        if bytes[8] == 61u8 {
            let rest = sub_vec(&line, 9, 80);
            let (value, comment) = parse_value_field(&rest);
            return Card { keyword: vec_to_string(&kw), value, comment };
        }
        if eq_ic_at(&kw, 0, kwl, "CONTINUE") {
            let rest = sub_vec(&line, KEYWORD_FIELD, 80);
            let (value, comment) = parse_value_field(&rest);
            return Card { keyword: vec_to_string(&kw), value, comment };
        }
        let raw = trimmed_end(&line);
        Card { keyword: vec_to_string(&kw), value: Value::Invalid(vec_to_string(&raw)), comment: None }
    }

    fn parse_hierarch(line: &Vec<char>) -> (c: Card)
        ensures
            c@ == match find_from(line@, '=', 0) {
                Some(eq) => {
                    let vf = value_field(line@.subrange(eq + 1, line@.len() as int));
                    (trim(line@.subrange(0, eq)), vf.0, vf.1)
                },
                None => ("HIERARCH"@, ValueView::Invalid(trim_end(line@)), None),
            },
    {
        match find_char(line, '=', 0) {
            Some(eq) => {
                let n = line.len();
                assert(eq < n);
                let head = sub_vec(line, 0, eq);
                let keyword = trimmed(&head);
                let rest = sub_vec(line, eq + 1, n);
                let (value, comment) = parse_value_field(&rest);
                Card { keyword: vec_to_string(&keyword), value, comment }
            },
            None => {
                let raw = trimmed_end(line);
                Card {
                    keyword: string_from("HIERARCH"),
                    value: Value::Invalid(vec_to_string(&raw)),
                    comment: None,
                }
            },
        }
    }
}


/// Appends the characters of a string slice to a vector.
pub(crate) fn append_str(v: &mut Vec<char>, s: &str)
    ensures
        final(v)@ == old(v)@ + s@,
{
    let cs = chars_of(s);
    append_chars(v, &cs);
}

pub(crate) fn append_chars(v: &mut Vec<char>, cs: &Vec<char>)
    ensures
        final(v)@ == old(v)@ + cs@,
{
    let mut i: usize = 0;
    while i < cs.len()
        invariant
            i <= cs@.len(),
            v@ == old(v)@ + cs@.subrange(0, i as int),
        decreases cs.len() - i,
    {
        v.push(cs[i]);
        i = i + 1;
        assert(v@ =~= old(v)@ + cs@.subrange(0, i as int));
    }
    assert(cs@.subrange(0, cs@.len() as int) =~= cs@);
}

/// Formats a value for the value field (the caller adds the keyword prefix
/// and any comment).
fn format_value(value: &Value) -> (s: Vec<char>)
    ensures
        s@ == value_text(value@),
{
    let mut s: Vec<char> = Vec::new();
    match value {
        Value::Logical(b) => {
            s.push(if *b { 'T' } else { 'F' });
            assert(s@ =~= value_text(value@));
        },
        Value::Integer(i) => {
            s = int_chars(*i);
        },
        Value::Float(f) => {
            s = chars_of(f.as_str());
        },
        Value::String(text) => {
            let cs = chars_of(text.as_str());
            s.push('\'');
            let mut i: usize = 0;
            while i < cs.len()
                invariant
                    i <= cs@.len(),
                    s@ == seq!['\''] + escape_quotes(cs@.subrange(0, i as int)),
                decreases cs.len() - i,
            {
                let c = cs[i];
                assert(cs@.subrange(0, i + 1).drop_last() =~= cs@.subrange(0, i as int));
                if c == '\'' {
                    s.push('\'');
                    s.push('\'');
                    assert(s@ =~= seq!['\''] + escape_quotes(cs@.subrange(0, i + 1)));
                } else {
                    s.push(c);
                    assert(s@ =~= seq!['\''] + escape_quotes(cs@.subrange(0, i + 1)));
                }
                i = i + 1;
            }
            assert(cs@.subrange(0, cs@.len() as int) =~= cs@);
            s.push('\'');
            assert(s@ =~= value_text(value@));
        },
        Value::Complex(re, im) => {
            s.push('(');
            append_str(&mut s, re.as_str());
            s.push(',');
            s.push(' ');
            append_str(&mut s, im.as_str());
            s.push(')');
            assert(s@ =~= value_text(value@));
        },
        Value::Undefined => {
            assert(s@ =~= value_text(value@));
        },
        Value::Commentary(text) => {
            s = chars_of(text.as_str());
        },
        Value::Invalid(raw) => {
            s = chars_of(raw.as_str());
        },
    }
    s
}

/// `s` padded with spaces to at least `n` characters.
pub(crate) fn padded(s: &Vec<char>, n: usize) -> (v: Vec<char>)
    ensures
        v@ == pad_to(s@, n as int),
{
    let mut v: Vec<char> = Vec::new();
    append_chars(&mut v, s);
    let ghost base = v@;
    while v.len() < n
        invariant
            v@.len() >= s@.len(),
            s@.len() >= n ==> v@.len() == s@.len(),
            s@.len() < n ==> v@.len() <= n,
            v@ == s@ + Seq::new((v@.len() - s@.len()) as nat, |i: int| ' '),
        decreases n - v@.len(),
    {
        v.push(' ');
        assert(v@ =~= s@ + Seq::new((v@.len() - s@.len()) as nat, |i: int| ' '));
    }
    proof {
        if s@.len() >= n {
            assert(v@ =~= s@);
        } else {
            assert(v@.len() == n);
        }
    }
    v
}

impl Card {
    /// Whether the keyword is written in the `HIERARCH` form.
    fn is_hierarch(&self) -> (b: bool)
        ensures
            b == is_hierarch_kw(self.keyword@),
    {
        if self.keyword.as_str().as_bytes().len() > KEYWORD_FIELD {
            return true;
        }
        if str_eq_ic(self.keyword.as_str(), "HIERARCH") {
            return true;
        }
        let cs = chars_of(self.keyword.as_str());
        let t = trimmed_start(&cs);
        let e = find_ws(&t);
        let word = sub_vec(&t, 0, e);
        assert(word@.subrange(0, word@.len() as int) =~= word@);
        eq_ic_at(&word, 0, word.len(), "HIERARCH")
    }

    /// The card's text before it is cut or padded to 80 bytes.
    fn line(&self) -> (v: Vec<char>)
        ensures
            v@ == card_line(self@),
    {
        let kw = chars_of(self.keyword.as_str());
        let mut line: Vec<char>;
        match &self.value {
            Value::Commentary(text) => {
                line = padded(&kw, KEYWORD_FIELD);
                append_str(&mut line, text.as_str());
                return line;
            },
            _ => {},
        }
        if str_eq_ic(self.keyword.as_str(), "CONTINUE") {
            line = chars_of("CONTINUE  ");
            let fv = format_value(&self.value);
            append_chars(&mut line, &fv);
            return line;
        }
        if self.is_hierarch() {
            line = kw;
            append_str(&mut line, " = ");
        } else {
            line = padded(&kw, KEYWORD_FIELD);
            append_str(&mut line, "= ");
        }
        let fv = format_value(&self.value);
        append_chars(&mut line, &fv);
        let ghost before = line@;
        proof {
            reveal_strlit(" = ");
            reveal_strlit("= ");
            reveal_strlit(" / ");
            let head = if is_hierarch_kw(self.keyword@) {
                self.keyword@ + seq![' ', '=', ' ']
            } else {
                pad_to(self.keyword@, 8) + seq!['=', ' ']
            };
            assert(before =~= head + value_text(self.value@));
        }
        assert(card_line(self@) == with_comment(before, opt_view(self.comment)));
        match &self.comment {
            Some(c) => {
                let mut full = sub_vec(&line, 0, line.len());
                assert(full@ =~= line@);
                append_str(&mut full, " / ");
                append_str(&mut full, c.as_str());
                assert(full@ =~= before + comment_text(opt_view(self.comment)));
                let text = vec_to_string(&full);
                let n = text.as_str().as_bytes().len();
                assert(n == encode_utf8(before + comment_text(opt_view(self.comment))).len());
                if n <= CARD_LEN {
                    full
                } else {
                    line
                }
            },
            None => {
                assert(line@ =~= before + comment_text(opt_view(self.comment)));
                line
            },
        }
    }

    /// Serializes to exactly 80 bytes: the UTF-8 text of the card, padded
    /// with spaces. If a comment does not fit alongside the value within
    /// the 80-byte limit, it is dropped rather than corrupting the value or
    /// overflowing the card — callers that need a guarantee it fits should
    /// keep comments short.
    pub fn to_bytes(&self) -> (out: [u8; 80])
        ensures
            out@ == card_bytes(card_line(self@)),
    {
        let line = self.line();
        line_bytes(&line)
    }
}

/// The UTF-8 bytes of `line`, cut to 80 and padded with spaces.
pub(crate) fn line_bytes(line: &Vec<char>) -> (out: [u8; 80])
    ensures
        out@ == card_bytes(line@),
{
    let s = vec_to_string(line);
    let b = s.as_str().as_bytes();
    let mut out: [u8; 80] = [32u8; 80];
    let n: usize = if b.len() < 80 { b.len() } else { 80 };
    let mut i: usize = 0;
    while i < n
        invariant
            i <= n <= 80,
            n <= b@.len(),
            n == 80 || n == b@.len(),
            b@ == encode_utf8(line@),
            forall|k: int| 0 <= k < i ==> out@[k] == b@[k],
            forall|k: int| i <= k < 80 ==> out@[k] == 32u8,
            out@.len() == 80,
        decreases n - i,
    {
        out[i] = b[i];
        i = i + 1;
    }
    assert(out@ =~= card_bytes(line@));
    out
}

} // verus!
