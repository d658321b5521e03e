//! What a card written by [`Card::to_bytes`](crate::card::Card::to_bytes)
//! reads back as: every card built from a plain keyword, a plain value and
//! a short comment serializes to 80 ASCII bytes and re-parses to an equal
//! card. Parsing is lossy in general (`Value::Invalid`, whitespace and case
//! normalization), so the law is stated for the cards a writer produces.

use vstd::prelude::*;
use vstd::utf8::{encode_utf8, is_ascii_chars, is_ascii_chars_encode_utf8};
use crate::card::{
    CardView, ValueView, card_bytes, card_line, card_of, comment_text, complex_of, escape_quotes,
    extract_comment, find_from, first_word, is_commentary_kw, is_float_lit, is_hierarch_kw, latin1,
    normalize_exp, pad_to, quoted_scan, token_end, value_field, value_text, ws_index,
};
use crate::writer::{comment_suffix, fixed_kv_line, float_text, rjust, serialized_card, string_line};
use crate::text::{
    dec_int, eq_ic, is_digit, is_ws, lemma_parse_dec_int, lemma_trim_end_len_unique,
    lemma_trim_start_len_unique, parse_i64, trim, trim_end, trim_end_len, trim_start, trim_start_len, upper,
};

verus! {

pub open spec fn is_key_char(c: char) -> bool {
    ('A' <= c <= 'Z') || ('0' <= c <= '9') || c == '-'
}

/// A keyword a writer produces: 1–8 characters of `A–Z`, `0–9`, `-`,
/// starting with a letter, other than `COMMENT`, `HISTORY`, `END`,
/// `HIERARCH` and `CONTINUE`.
pub open spec fn plain_keyword(kw: Seq<char>) -> bool {
    &&& 1 <= kw.len() <= 8
    &&& 'A' <= kw[0] <= 'Z'
    &&& forall|i: int| 0 <= i < kw.len() ==> is_key_char(#[trigger] kw[i])
    &&& kw != "COMMENT"@
    &&& kw != "HISTORY"@
    &&& kw != "END"@
    &&& kw != "HIERARCH"@
    &&& kw != "CONTINUE"@
}

pub open spec fn printable(c: char) -> bool {
    ' ' <= c <= '~'
}

/// A comment of 1–30 printable ASCII characters, without leading or
/// trailing spaces.
pub open spec fn plain_comment(c: Option<Seq<char>>) -> bool {
    match c {
        None => true,
        Some(t) => 1 <= t.len() <= 30 && (forall|i: int| 0 <= i < t.len() ==> printable(#[trigger] t[i]))
            && t[0] != ' ' && t.last() != ' ',
    }
}

/// A value a writer produces: a logical, any integer, the undefined
/// value, a string of at most 20 printable characters without quotes or
/// trailing spaces, or a float literal of at most 37 printable characters
/// with an `E` exponent marker that does not read as an integer.
pub open spec fn plain_value(v: ValueView) -> bool {
    match v {
        ValueView::Logical(_) => true,
        ValueView::Integer(_) => true,
        ValueView::Undefined => true,
        ValueView::String(s) => s.len() <= 20 && (forall|i: int|
            0 <= i < s.len() ==> printable(#[trigger] s[i]) && s[i] != '\'') && (s.len() > 0 ==> s.last() != ' '),
        ValueView::Float(t) => 1 <= t.len() <= 37 && (forall|i: int|
            0 <= i < t.len() ==> printable(#[trigger] t[i]) && t[i] != ' ' && t[i] != '/' && t[i] != 'd' && t[i]
                != 'D') && is_float_lit(t) && parse_i64(t) is None,
        _ => false,
    }
}

/// `n` spaces.
pub open spec fn spaces(n: int) -> Seq<char> {
    Seq::new(n as nat, |i: int| ' ')
}

proof fn lemma_printable_ws(c: char)
    requires
        printable(c),
    ensures
        is_ws(c) <==> c == ' ',
{
}

/// An ASCII line of at most 80 characters reads back from its card bytes
/// padded with spaces.
proof fn lemma_ascii_card_bytes(line: Seq<char>)
    requires
        is_ascii_chars(line),
        line.len() <= 80,
    ensures
        latin1(card_bytes(line)) == line + spaces(80 - line.len()),
        forall|i: int| 0 <= i < 80 ==> #[trigger] card_bytes(line)[i] < 128,
{
    is_ascii_chars_encode_utf8(line);
    let b = encode_utf8(line);
    let l = latin1(card_bytes(line));
    assert forall|i: int| 0 <= i < 80 implies #[trigger] l[i] == (line + spaces(80 - line.len()))[i] by {
        if i < line.len() {
            let c = line[i];
            assert(b[i] == c as u8);
            assert(('\0' <= c <= '\u{7f}'));
            assert(((c as u8) as char) == c);
        } else {
            assert(((32u8) as char) == ' ');
        }
    }
    assert(l =~= line + spaces(80 - line.len()));
    assert forall|i: int| 0 <= i < 80 implies #[trigger] card_bytes(line)[i] < 128 by {
        if i < line.len() {
            let c = line[i];
            assert(b[i] == c as u8);
            assert(('\0' <= c <= '\u{7f}'));
        }
    }
}

/// The keyword field of a plain keyword, trimmed, is the keyword.
proof fn lemma_keyword_field(kw: Seq<char>)
    requires
        plain_keyword(kw),
    ensures
        trim_end(pad_to(kw, 8)) == kw,
        pad_to(kw, 8).len() == 8,
{
    let p = pad_to(kw, 8);
    assert(p.len() == 8);
    assert forall|i: int| kw.len() <= i < p.len() implies is_ws(#[trigger] p[i]) by {
        assert(p[i] == ' ');
    }
    assert(p[kw.len() - 1] == kw[kw.len() - 1]);
    assert(is_key_char(kw[kw.len() - 1]));
    lemma_trim_end_len_unique(p, kw.len() as int);
    assert(trim_end(p) =~= kw);
}

/// The comment after a value reads back as the comment written.
proof fn lemma_comment_back(c: Option<Seq<char>>, m: int)
    requires
        plain_comment(c),
        m >= 0,
    ensures
        extract_comment(comment_text(c) + spaces(m)) == c,
{
    let s = comment_text(c) + spaces(m);
    match c {
        None => {
            assert(s =~= spaces(m));
            assert forall|i: int| 0 <= i < s.len() implies is_ws(#[trigger] s[i]) by {}
            lemma_trim_start_len_unique(s, s.len() as int);
            assert(trim_start(s).len() == 0);
        },
        Some(t) => {
            assert(s[0] == ' ');
            assert(s[1] == '/');
            lemma_trim_start_len_unique(s, 1);
            let a = trim_start(s);
            assert(a =~= s.subrange(1, s.len() as int));
            assert(a[0] == '/');
            let r = a.drop_first();
            assert(r =~= seq![' '] + t + spaces(m));
            assert(!is_ws(t[0])) by {
                lemma_printable_ws(t[0]);
            }
            lemma_trim_start_len_unique(r, 1);
            let u = trim_start(r);
            assert(u =~= t + spaces(m));
            assert forall|i: int| t.len() <= i < u.len() implies is_ws(#[trigger] u[i]) by {}
            assert(!is_ws(u[t.len() - 1])) by {
                lemma_printable_ws(t.last());
            }
            lemma_trim_end_len_unique(u, t.len() as int);
            assert(trim(r) =~= t);
        },
    }
}

/// Scanning an unquoted token stops at its end.
proof fn lemma_token_end(tok: Seq<char>, rest: Seq<char>, j: int)
    requires
        0 <= j <= tok.len(),
        forall|i: int| 0 <= i < tok.len() ==> #[trigger] tok[i] != ' ' && tok[i] != '/',
        rest.len() == 0 || rest[0] == ' ',
    ensures
        token_end(tok + rest, j) == tok.len(),
    decreases tok.len() - j,
{
    let s = tok + rest;
    if j < tok.len() {
        assert(s[j] == tok[j]);
        lemma_token_end(tok, rest, j + 1);
    } else if rest.len() > 0 {
        assert(s[j] == rest[0]);
    }
}

/// Scanning a quoted string without quotes inside reads it back.
proof fn lemma_quoted_back(s: Seq<char>, rest: Seq<char>, i: int)
    requires
        0 <= i <= s.len(),
        forall|k: int| 0 <= k < s.len() ==> #[trigger] s[k] != '\'',
        rest.len() == 0 || rest[0] == ' ',
    ensures
        quoted_scan(s + seq!['\''] + rest, i, s.subrange(0, i)) == (trim_end(s), rest),
    decreases s.len() - i,
{
    let u = s + seq!['\''] + rest;
    if i < s.len() {
        assert(u[i] == s[i]);
        assert(s.subrange(0, i).push(s[i]) =~= s.subrange(0, i + 1));
        lemma_quoted_back(s, rest, i + 1);
    } else {
        assert(u[i] == '\'');
        if rest.len() > 0 {
            assert(u[i + 1] == rest[0]);
        }
        assert(s.subrange(0, i) =~= s);
        assert(u.subrange(i + 1, u.len() as int) =~= rest);
    }
}

/// Leading whitespace is skipped one character at a time.
proof fn lemma_trim_start_space(x: Seq<char>)
    ensures
        trim_start(seq![' '] + x) == trim_start(x),
{
    let s = seq![' '] + x;
    assert(s.drop_first() =~= x);
    assert(trim_start_len(s) == 1 + trim_start_len(x));
    crate::text::lemma_trim_start_len(x);
    assert(trim_start(s) =~= trim_start(x));
}

/// Text that starts with a non-space is its own trimmed start.
proof fn lemma_trim_start_nonws(x: Seq<char>)
    requires
        x.len() > 0,
        !is_ws(x[0]),
    ensures
        trim_start(x) == x,
{
    lemma_trim_start_len_unique(x, 0);
    assert(trim_start(x) =~= x);
}

/// A string without quotes is written as it is.
proof fn lemma_escape_plain(s: Seq<char>)
    requires
        forall|k: int| 0 <= k < s.len() ==> #[trigger] s[k] != '\'',
    ensures
        escape_quotes(s) == s,
    decreases s.len(),
{
    if s.len() > 0 {
        let d = s.drop_last();
        assert forall|k: int| 0 <= k < d.len() implies #[trigger] d[k] != '\'' by {
            assert(d[k] == s[k]);
        }
        lemma_escape_plain(d);
        assert(d.push(s.last()) =~= s);
    }
}

/// `eq_ignore_ascii_case` between texts without lower-case letters is
/// equality.
proof fn lemma_eq_ic_upper(a: Seq<char>, b: Seq<char>)
    requires
        forall|i: int| 0 <= i < a.len() ==> !('a' <= #[trigger] a[i] <= 'z'),
        forall|i: int| 0 <= i < b.len() ==> !('a' <= #[trigger] b[i] <= 'z'),
    ensures
        eq_ic(a, b) <==> a == b,
{
    if eq_ic(a, b) {
        assert forall|i: int| 0 <= i < a.len() implies a[i] == b[i] by {
            assert(upper(a[i]) == upper(b[i]));
        }
        assert(a =~= b);
    }
}

/// The undefined value reads back with its comment.
proof fn lemma_value_back_undefined(c: Option<Seq<char>>, m: int)
    requires
        plain_comment(c),
        m >= 0,
    ensures
        value_field(seq![' '] + comment_text(c) + spaces(m)) == (ValueView::Undefined, c),
{
    let ct = comment_text(c);
    let after = ct + spaces(m);
    let rest = seq![' '] + after;
    assert(seq![' '] + ct + spaces(m) =~= rest);
    lemma_comment_back(c, m);
    lemma_trim_start_space(after);
    let t = trim_start(after);
    crate::text::lemma_trim_start_len(after);
    match c {
        Some(ctext) => {
            let tail = seq!['/', ' '] + ctext + spaces(m);
            assert(after =~= seq![' '] + tail);
            lemma_trim_start_space(tail);
            lemma_trim_start_nonws(tail);
            assert(t == tail);
            assert(t[0] == '/');
            assert(token_end(t, 0) == 0);
            assert(t.subrange(0, 0) =~= Seq::<char>::empty());
            assert(t.subrange(0, t.len() as int) =~= t);
            lemma_trim_start_nonws(t);
            assert(extract_comment(t) == extract_comment(after));
        },
        None => {
            assert(after =~= spaces(m));
            assert forall|i: int| 0 <= i < after.len() implies is_ws(#[trigger] after[i]) by {}
            lemma_trim_start_len_unique(after, after.len() as int);
            assert(t.len() == 0);
            assert(token_end(t, 0) == 0);
            assert(t.subrange(0, 0) =~= Seq::<char>::empty());
            assert(extract_comment(t.subrange(0, 0)) == None::<Seq<char>>);
        },
    }
}

/// A string value reads back with its comment.
proof fn lemma_value_back_string(s: Seq<char>, c: Option<Seq<char>>, m: int)
    requires
        plain_value(ValueView::String(s)),
        plain_comment(c),
        m >= 0,
    ensures
        value_field(seq![' '] + value_text(ValueView::String(s)) + comment_text(c) + spaces(m))
            == (ValueView::String(s), c),
{
    let vt = value_text(ValueView::String(s));
    let ct = comment_text(c);
    let after = ct + spaces(m);
    let rest = seq![' '] + (vt + after);
    assert(seq![' '] + vt + ct + spaces(m) =~= rest);
    lemma_comment_back(c, m);
    lemma_trim_start_space(vt + after);
    lemma_escape_plain(s);
    assert(vt =~= seq!['\''] + s + seq!['\'']);
    lemma_trim_start_nonws(vt + after);
    let t = vt + after;
    assert(t[0] == '\'');
    assert(t.drop_first() =~= s + seq!['\''] + after);
    assert(after.len() == 0 || after[0] == ' ');
    lemma_quoted_back(s, after, 0);
    assert(s.subrange(0, 0) =~= Seq::<char>::empty());
    if s.len() > 0 {
        lemma_printable_ws(s.last());
        lemma_trim_end_len_unique(s, s.len() as int);
    } else {
        lemma_trim_end_len_unique(s, 0);
    }
    assert(trim_end(s) =~= s);
}

/// A logical, integer or float value reads back with its comment.
proof fn lemma_value_back_token(v: ValueView, c: Option<Seq<char>>, m: int)
    requires
        plain_value(v),
        plain_comment(c),
        m >= 0,
        v is Logical || v is Integer || v is Float,
    ensures
        value_field(seq![' '] + value_text(v) + comment_text(c) + spaces(m)) == (v, c),
{
    let vt = value_text(v);
    let ct = comment_text(c);
    let after = ct + spaces(m);
    let rest = seq![' '] + (vt + after);
    assert(seq![' '] + vt + ct + spaces(m) =~= rest);
    assert(after.len() == 0 || after[0] == ' ');
    lemma_comment_back(c, m);
    lemma_trim_start_space(vt + after);
    reveal_strlit("T");
    reveal_strlit("F");
    let t = vt + after;
    assert(vt.len() > 0 && !is_ws(vt[0]) && vt[0] != '\'' && vt[0] != '(' && (forall|i: int|
        0 <= i < vt.len() ==> #[trigger] vt[i] != ' ' && vt[i] != '/')) by {
        match v {
            ValueView::Integer(i) => {
                lemma_parse_dec_int(i);
                assert forall|j: int| 0 <= j < vt.len() implies #[trigger] vt[j] != ' ' && vt[j] != '/' by {
                    assert(is_digit(vt[j]) || vt[j] == '-');
                }
                assert(is_digit(vt[0]) || vt[0] == '-');
            },
            ValueView::Float(f) => {
                crate::card::lemma_float_lit_start(f);
                lemma_printable_ws(f[0]);
            },
            _ => {},
        }
    }
    lemma_trim_start_nonws(t);
    assert(t[0] == vt[0]);
    assert(complex_of(t) is None);
    lemma_token_end(vt, after, 0);
    assert(t.subrange(0, vt.len() as int) =~= vt);
    assert(t.subrange(vt.len() as int, t.len() as int) =~= after);
    match v {
        ValueView::Integer(i) => {
            lemma_parse_dec_int(i);
            assert(!eq_ic(vt, "T"@) && !eq_ic(vt, "F"@)) by {
                if vt.len() == 1 {
                    assert(is_digit(vt[0]) || vt[0] == '-');
                }
            }
        },
        ValueView::Float(f) => {
            assert(!eq_ic(vt, "T"@) && !eq_ic(vt, "F"@)) by {
                if vt.len() == 1 {
                    crate::card::lemma_float_lit_letter(f);
                }
            }
            assert(normalize_exp(f) =~= f);
        },
        _ => {},
    }
}

/// A value and comment written after `= ` read back from the value field.
proof fn lemma_value_back(v: ValueView, c: Option<Seq<char>>, m: int)
    requires
        plain_value(v),
        plain_comment(c),
        m >= 0,
    ensures
        value_field(seq![' '] + value_text(v) + comment_text(c) + spaces(m)) == (v, c),
{
    match v {
        ValueView::Undefined => {
            assert(seq![' '] + value_text(v) + comment_text(c) + spaces(m) =~= seq![' '] + comment_text(c) + spaces(m));
            lemma_value_back_undefined(c, m);
        },
        ValueView::String(s) => {
            lemma_value_back_string(s, c, m);
        },
        _ => {
            lemma_value_back_token(v, c, m);
        },
    }
}

/// Every card built from a plain keyword, a plain value and a short
/// comment serializes to 80 ASCII bytes and re-parses to an equal card.
pub proof fn lemma_card_roundtrip(kw: Seq<char>, v: ValueView, c: Option<Seq<char>>)
    requires
        plain_keyword(kw),
        plain_value(v),
        plain_comment(c),
    ensures
        forall|i: int| 0 <= i < 80 ==> #[trigger] card_bytes(card_line((kw, v, c)))[i] < 128,
        card_of(latin1(card_bytes(card_line((kw, v, c))))) == (kw, v, c),
{
    reveal_strlit("COMMENT");
    reveal_strlit("HISTORY");
    reveal_strlit("END");
    reveal_strlit("HIERARCH");
    reveal_strlit("CONTINUE");
    assert forall|i: int| 0 <= i < kw.len() implies !('a' <= #[trigger] kw[i] <= 'z') by {
        assert(is_key_char(kw[i]));
    }
    lemma_eq_ic_upper(kw, "COMMENT"@);
    lemma_eq_ic_upper(kw, "HISTORY"@);
    lemma_eq_ic_upper(kw, "END"@);
    lemma_eq_ic_upper(kw, "HIERARCH"@);
    lemma_eq_ic_upper(kw, "CONTINUE"@);
    // The keyword is written in the short form.
    assert(is_ascii_chars(kw)) by {
        assert forall|i: int| 0 <= i < kw.len() implies '\0' <= #[trigger] kw[i] <= '\u{7f}' by {
            assert(is_key_char(kw[i]));
        }
    }
    is_ascii_chars_encode_utf8(kw);
    lemma_trim_start_nonws(kw);
    assert(ws_index(kw, 0) == kw.len()) by {
        lemma_no_ws_index(kw, 0);
    }
    assert(first_word(kw) =~= kw);
    assert(!is_hierarch_kw(kw));
    let vt = value_text(v);
    let ct = comment_text(c);
    let line = pad_to(kw, 8) + seq!['=', ' '] + vt + ct;
    lemma_keyword_field(kw);
    lemma_text_ascii(v, c);
    let pk = pad_to(kw, 8);
    assert(pk =~= kw + spaces(8 - kw.len()));
    assert(line =~= pk + (seq!['=', ' '] + (vt + ct)));
    assert(is_ascii_chars(line)) by {
        assert forall|i: int| 0 <= i < line.len() implies '\0' <= #[trigger] line[i] <= '\u{7f}' by {
            if i < 8 {
                assert(line[i] == pk[i]);
                if i < kw.len() {
                    assert(pk[i] == kw[i]);
                    assert(is_key_char(kw[i]));
                } else {
                    assert(pk[i] == ' ');
                }
            } else if i < 10 {
                assert(line[i] == '=' || line[i] == ' ');
            } else if i < 10 + vt.len() {
                assert(line[i] == vt[i - 10]);
                assert(printable(value_text(v)[i - 10]));
            } else {
                assert(line[i] == ct[i - 10 - vt.len()]);
                assert(printable(comment_text(c)[i - 10 - vt.len()]));
            }
        }
    }
    lemma_ascii_card_bytes(line);
    is_ascii_chars_encode_utf8(line);
    assert(card_line((kw, v, c)) == line) by {
        assert(pad_to(kw, 8) + seq!['=', ' '] + vt + ct =~= (pad_to(kw, 8) + seq!['=', ' '] + vt) + comment_text(c));
    }
    let m = 80 - line.len();
    let l = line + spaces(m);
    assert(l.subrange(0, 8) =~= pad_to(kw, 8));
    assert(l[8] == '=');
    assert(l.subrange(9, 80) =~= seq![' '] + vt + ct + spaces(m));
    lemma_value_back(v, c, m);
    assert(!is_commentary_kw(kw));
}

/// A comment too long to fit after ` / ` within the 80 bytes is left out:
/// the card reads back with its keyword and value intact and no comment.
pub proof fn lemma_long_comment_dropped(kw: Seq<char>, v: ValueView, c: Seq<char>)
    requires
        plain_keyword(kw),
        plain_value(v),
        encode_utf8(card_line((kw, v, None)) + comment_text(Some(c))).len() > 80,
    ensures
        card_line((kw, v, Some(c))) == card_line((kw, v, None)),
        card_of(latin1(card_bytes(card_line((kw, v, Some(c)))))) == (kw, v, None::<Seq<char>>),
{
    lemma_card_roundtrip(kw, v, None);
    assert(comment_text(None) =~= Seq::<char>::empty());
    let line = card_line((kw, v, None));
    if !(v is Commentary) && !eq_ic(kw, "CONTINUE"@) {
        let base = if is_hierarch_kw(kw) {
            kw + seq![' ', '=', ' '] + value_text(v)
        } else {
            pad_to(kw, 8) + seq!['=', ' '] + value_text(v)
        };
        assert(base + comment_text(None) =~= base);
        assert(line == base);
    }
}

/// A text without whitespace has no whitespace index before its end.
proof fn lemma_no_ws_index(s: Seq<char>, i: int)
    requires
        0 <= i <= s.len(),
        forall|k: int| 0 <= k < s.len() ==> is_key_char(#[trigger] s[k]),
    ensures
        ws_index(s, i) == s.len(),
    decreases s.len() - i,
{
    if i < s.len() {
        assert(is_key_char(s[i]));
        lemma_no_ws_index(s, i + 1);
    }
}

/// The value and comment text of plain values is ASCII and short enough
/// for the card.
proof fn lemma_text_ascii(v: ValueView, c: Option<Seq<char>>)
    requires
        plain_value(v),
        plain_comment(c),
    ensures
        forall|i: int| 0 <= i < value_text(v).len() ==> printable(#[trigger] value_text(v)[i]),
        forall|i: int| 0 <= i < comment_text(c).len() ==> printable(#[trigger] comment_text(c)[i]),
        value_text(v).len() <= 37,
        comment_text(c).len() <= 33,
{
    let vt = value_text(v);
    match v {
        ValueView::Integer(i) => {
            lemma_parse_dec_int(i);
            assert forall|j: int| 0 <= j < vt.len() implies printable(#[trigger] vt[j]) by {
                assert(is_digit(vt[j]) || vt[j] == '-');
            }
        },
        ValueView::String(s) => {
            lemma_escape_plain(s);
            assert(vt =~= seq!['\''] + s + seq!['\'']);
            assert forall|j: int| 0 <= j < vt.len() implies printable(#[trigger] vt[j]) by {
                if 0 < j < vt.len() - 1 {
                    assert(vt[j] == s[j - 1]);
                    assert(printable(s[j - 1]));
                }
            }
        },
        ValueView::Float(f) => {
            assert forall|j: int| 0 <= j < vt.len() implies printable(#[trigger] vt[j]) by {
                assert(printable(f[j]));
            }
        },
        _ => {},
    }
    match c {
        Some(t) => {
            let ct = comment_text(c);
            assert forall|j: int| 0 <= j < ct.len() implies printable(#[trigger] ct[j]) by {
                if j >= 3 {
                    assert(ct[j] == t[j - 3]);
                    assert(printable(t[j - 3]));
                }
            }
        },
        None => {},
    }
}

// ---------------------------------------------------------------------------
// Cards in the writer's fixed format
// ---------------------------------------------------------------------------

/// A value the fixed-format writer writes so that it reads back: a plain
/// value, a float among them spelled with a `.` or an `E` and no `e`.
pub open spec fn writable_value(v: ValueView) -> bool {
    &&& plain_value(v)
    &&& v is Float ==> ((v->Float_0.contains('.') || v->Float_0.contains('E')) && !v->Float_0.contains('e'))
}

proof fn lemma_trim_start_spaces(k: int, x: Seq<char>)
    requires
        k >= 0,
    ensures
        trim_start(spaces(k) + x) == trim_start(x),
    decreases k,
{
    if k > 0 {
        lemma_trim_start_spaces(k - 1, x);
        assert(spaces(k) + x =~= seq![' '] + (spaces(k - 1) + x));
        lemma_trim_start_space(spaces(k - 1) + x);
    } else {
        assert(spaces(0) + x =~= x);
    }
}

/// Facts about a plain keyword the card grammar relies on.
pub(crate) proof fn lemma_plain_kw(kw: Seq<char>)
    requires
        plain_keyword(kw),
    ensures
        !is_commentary_kw(kw),
        !eq_ic(kw, "HIERARCH"@),
        !eq_ic(kw, "CONTINUE"@),
        !eq_ic(kw, "END"@),
        trim_end(pad_to(kw, 8)) == kw,
        pad_to(kw, 8) == kw + spaces(8 - kw.len()),
        forall|i: int| 0 <= i < 8 ==> printable(#[trigger] pad_to(kw, 8)[i]),
{
    reveal_strlit("COMMENT");
    reveal_strlit("HISTORY");
    reveal_strlit("END");
    reveal_strlit("HIERARCH");
    reveal_strlit("CONTINUE");
    assert forall|i: int| 0 <= i < kw.len() implies !('a' <= #[trigger] kw[i] <= 'z') by {
        assert(is_key_char(kw[i]));
    }
    lemma_eq_ic_upper(kw, "COMMENT"@);
    lemma_eq_ic_upper(kw, "HISTORY"@);
    lemma_eq_ic_upper(kw, "END"@);
    lemma_eq_ic_upper(kw, "HIERARCH"@);
    lemma_eq_ic_upper(kw, "CONTINUE"@);
    lemma_keyword_field(kw);
    let pk = pad_to(kw, 8);
    assert(pk =~= kw + spaces(8 - kw.len()));
    assert forall|i: int| 0 <= i < 8 implies printable(#[trigger] pad_to(kw, 8)[i]) by {
        if i < kw.len() {
            assert(pk[i] == kw[i]);
            assert(is_key_char(kw[i]));
        }
    }
}

/// A printable line of at most 80 characters is written as itself.
pub(crate) proof fn lemma_printable_line(line: Seq<char>)
    requires
        line.len() <= 80,
        forall|i: int| 0 <= i < line.len() ==> printable(#[trigger] line[i]),
    ensures
        encode_utf8(line).len() == line.len(),
        latin1(card_bytes(line)) == line + spaces(80 - line.len()),
        forall|i: int| 0 <= i < 80 ==> #[trigger] card_bytes(line)[i] < 128,
{
    assert(is_ascii_chars(line)) by {
        assert forall|i: int| 0 <= i < line.len() implies '\0' <= #[trigger] line[i] <= '\u{7f}' by {
            assert(printable(line[i]));
        }
    }
    is_ascii_chars_encode_utf8(line);
    lemma_ascii_card_bytes(line);
}

/// A float the writer spells as it is.
proof fn lemma_float_text_plain(t: Seq<char>)
    requires
        t.contains('.') || t.contains('E'),
        !t.contains('e'),
    ensures
        float_text(t) == t,
{
    assert forall|i: int| 0 <= i < t.len() implies t[i] != 'e' by {
        if t[i] == 'e' {
            assert(t.contains('e'));
        }
    }
    assert(float_text(t) =~= t);
}

/// The text a value is written as in a fixed-format card.
proof fn lemma_fixed_text(v: ValueView)
    requires
        writable_value(v),
        !(v is String),
    ensures
        serialized_card_text(v) == value_text(v),
{
    match v {
        ValueView::Float(t) => {
            lemma_float_text_plain(t);
        },
        _ => {},
    }
}

/// The value field text of a non-string value in a fixed-format card.
pub open spec fn serialized_card_text(v: ValueView) -> Seq<char> {
    match v {
        ValueView::Logical(b) => if b { seq!['T'] } else { seq!['F'] },
        ValueView::Integer(i) => dec_int(i as int),
        ValueView::Float(t) => float_text(t),
        _ => seq![],
    }
}

/// A string card of the writer reads back.
#[verifier::spinoff_prover]
#[verifier::rlimit(40)]
proof fn lemma_written_string_card(kw: Seq<char>, str: Seq<char>, c: Option<Seq<char>>)
    requires
        plain_keyword(kw),
        writable_value(ValueView::String(str)),
        plain_comment(c),
    ensures
        ({
            let line = string_line(kw, str, c);
            &&& line.len() <= 80
            &&& forall|i: int| 0 <= i < line.len() ==> printable(#[trigger] line[i])
            &&& card_of(line + spaces(80 - line.len())) == (kw, ValueView::String(str), c)
        }),
{
    lemma_plain_kw(kw);
    lemma_text_ascii(ValueView::String(str), c);
    let pk = pad_to(kw, 8);
    let ct = comment_text(c);
        lemma_escape_plain(str);
        let inner = if str.len() < 8 { pad_to(str, 8) } else { str };
        let base = pk + seq!['=', ' ', '\''] + inner + seq!['\''];
        let line = string_line(kw, str, c);
        assert(inner =~= str + spaces(inner.len() - str.len()));
        assert(forall|i: int| 0 <= i < str.len() ==> printable(#[trigger] str[i]) && str[i] != '\'');
        assert forall|i: int| 0 <= i < base.len() implies printable(#[trigger] base[i]) by {
            if i < 8 {
                assert(base[i] == pk[i]);
            } else if 11 <= i < 11 + str.len() {
                assert(base[i] == str[i - 11]);
            }
        }
        let pad = match c {
            Some(t) => if base.len() < 30 { 30 - base.len() } else { 0 },
            None => 0,
        };
        assert(base.len() == 12 + inner.len());
        lemma_printable_line(base);
        assert(line =~= base + spaces(pad) + ct);
        assert forall|i: int| 0 <= i < line.len() implies printable(#[trigger] line[i]) by {
            if i < base.len() {
                assert(line[i] == base[i]);
            } else if i >= base.len() + pad {
                assert(line[i] == ct[i - base.len() - pad]);
            }
        }
        lemma_printable_line(line);
        let m = 80 - line.len();
        let l = line + spaces(m);
        let r = spaces(pad) + ct + spaces(m);
        assert(l.subrange(0, 8) =~= pk);
        assert(l[8] == '=');
        assert(l.subrange(9, 80) =~= seq![' '] + (seq!['\''] + inner + seq!['\''] + r));
        lemma_trim_start_space(seq!['\''] + inner + seq!['\''] + r);
        lemma_trim_start_nonws(seq!['\''] + inner + seq!['\''] + r);
        let t = seq!['\''] + inner + seq!['\''] + r;
        assert(t.drop_first() =~= inner + seq!['\''] + r);
        assert forall|k: int| 0 <= k < inner.len() implies #[trigger] inner[k] != '\'' by {
            if k < str.len() {
                assert(inner[k] == str[k]);
            }
        }
        assert(r.len() == 0 || r[0] == ' ');
        lemma_quoted_back(inner, r, 0);
        assert(inner.subrange(0, 0) =~= Seq::<char>::empty());
        if str.len() > 0 {
            lemma_printable_ws(str.last());
            assert(inner[str.len() - 1] == str.last());
        }
        assert forall|i: int| str.len() <= i < inner.len() implies is_ws(#[trigger] inner[i]) by {}
        lemma_trim_end_len_unique(inner, str.len() as int);
        assert(trim_end(inner) =~= str);
        lemma_trim_start_spaces(pad, ct + spaces(m));
        assert(r =~= spaces(pad) + (ct + spaces(m)));
        lemma_comment_back(c, m);
        assert(extract_comment(r) == extract_comment(ct + spaces(m)));
}

/// A fixed-format (non-string) card of the writer reads back.
#[verifier::spinoff_prover]
#[verifier::rlimit(40)]
proof fn lemma_written_fixed_card(kw: Seq<char>, v: ValueView, c: Option<Seq<char>>)
    requires
        plain_keyword(kw),
        writable_value(v),
        !(v is String),
        plain_comment(c),
    ensures
        ({
            let line = fixed_kv_line(kw, serialized_card_text(v), c);
            &&& line.len() <= 80
            &&& forall|i: int| 0 <= i < line.len() ==> printable(#[trigger] line[i])
            &&& card_of(line + spaces(80 - line.len())) == (kw, v, c)
        }),
{
    lemma_plain_kw(kw);
    lemma_text_ascii(v, c);
    let pk = pad_to(kw, 8);
    let ct = comment_text(c);
    assert(comment_suffix(c) == ct);
        lemma_fixed_text(v);
        let vt = value_text(v);
        let k = if vt.len() < 20 { 20 - vt.len() } else { 0 };
        let line = fixed_kv_line(kw, vt, c);
        assert(rjust(vt, 20) =~= spaces(k) + vt);
        assert(line =~= pk + seq!['=', ' '] + spaces(k) + vt + ct);
        assert forall|i: int| 0 <= i < line.len() implies printable(#[trigger] line[i]) by {
            if i < 8 {
                assert(line[i] == pk[i]);
            } else if 10 + k <= i < 10 + k + vt.len() {
                assert(line[i] == vt[i - 10 - k]);
            } else if i >= 10 + k + vt.len() {
                assert(line[i] == ct[i - 10 - k - vt.len()]);
            }
        }
        lemma_printable_line(line);
        let m = 80 - line.len();
        let l = line + spaces(m);
        let y = seq![' '] + vt + ct + spaces(m);
        assert(l.subrange(0, 8) =~= pk);
        assert(l[8] == '=');
        assert(l.subrange(9, 80) =~= spaces(k) + y);
        lemma_trim_start_spaces(k, y);
        lemma_value_back(v, c, m);
}

/// A card the fixed-format writer writes from a plain keyword, a writable
/// value and a short comment is 80 ASCII bytes that re-parse to the same
/// card.
pub proof fn lemma_written_card_roundtrip(kw: Seq<char>, v: ValueView, c: Option<Seq<char>>)
    requires
        plain_keyword(kw),
        writable_value(v),
        plain_comment(c),
    ensures
        serialized_card(kw, v, c) matches Some(b) && b.len() == 80 && (forall|i: int|
            0 <= i < 80 ==> #[trigger] b[i] < 128) && card_of(latin1(b)) == (kw, v, c),
{
    match v {
        ValueView::String(str) => {
            lemma_written_string_card(kw, str, c);
            lemma_printable_line(string_line(kw, str, c));
        },
        _ => {
            lemma_written_fixed_card(kw, v, c);
            lemma_fixed_text(v);
            lemma_printable_line(fixed_kv_line(kw, serialized_card_text(v), c));
        },
    }
}

} // verus!
