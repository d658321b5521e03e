//! FITS header writing: fixed-format card serialization, keyword
//! validation, [`HeaderBuilder`], the [`FitsWriter`] HDU sequencing rules,
//! and the card edits behind `update_header`.
//!
//! Headers are emitted in **fixed format** for every keyword the standard
//! defines that way (FITS Standard 4.0 §4.2.1): keyword in bytes 1–8, `= `
//! in 9–10, value right-justified through byte 30, optional ` / comment`.
//! Headers are padded to a 2880-byte boundary with ASCII spaces (§3.3.2).
//! `HeaderBuilder` enforces the mandatory keyword order (`SIMPLE`/`XTENSION`,
//! `BITPIX`, `NAXIS`, `NAXISn`, `PCOUNT`/`GCOUNT`, …, `END`) by
//! construction, so a caller cannot emit a structurally invalid header by
//! accident.

use vstd::prelude::*;
use vstd::utf8::encode_utf8;
use crate::card::{
    Card, CardView, Value, ValueView, append_chars, append_str, card_bytes, escape_quotes, line_bytes,
    opt_view, pad_to, padded, vec_to_string,
};
use crate::error::FitsError;
use crate::header::{BitPix, Header, bitpix_value, copy_card, views};
use crate::text::{
    all_digits, chars_of, dec, dec_int, eq_ic, eq_ic_at, int_chars, is_digit, push_str, str_eq, str_eq_ic,
    string_from,
};
use crate::fingerprint::{debug_str, debug_text};

verus! {

// ---------------------------------------------------------------------------
// Fixed-format card lines, as spec functions
// ---------------------------------------------------------------------------

/// `s` right-justified in a field of `n` characters (`{:>n}`).
pub open spec fn rjust(s: Seq<char>, n: int) -> Seq<char> {
    if s.len() >= n {
        s
    } else {
        Seq::new((n - s.len()) as nat, |i: int| ' ') + s
    }
}

/// ` / comment` for a non-empty comment.
pub open spec fn comment_suffix(c: Option<Seq<char>>) -> Seq<char> {
    match c {
        Some(t) => if t.len() > 0 { seq![' ', '/', ' '] + t } else { seq![] },
        None => seq![],
    }
}

/// `KEYWORD = <value right-justified to byte 30>[ / comment]`.
pub open spec fn fixed_kv_line(kw: Seq<char>, vf: Seq<char>, c: Option<Seq<char>>) -> Seq<char> {
    pad_to(kw, 8) + seq!['=', ' '] + rjust(vf, 20) + comment_suffix(c)
}

/// `KEYWORD = 'value'`, the quoted text padded to at least 8 characters;
/// with a comment, the line is padded to 30 bytes before ` / comment`.
pub open spec fn string_line(kw: Seq<char>, value: Seq<char>, c: Option<Seq<char>>) -> Seq<char> {
    let esc = escape_quotes(value);
    let inner = if esc.len() < 8 { pad_to(esc, 8) } else { esc };
    let base = pad_to(kw, 8) + seq!['=', ' ', '\''] + inner + seq!['\''];
    match c {
        Some(t) => if t.len() > 0 {
            let n = encode_utf8(base).len();
            let padded = if n < 30 { base + Seq::new((30 - n) as nat, |i: int| ' ') } else { base };
            padded + seq![' ', '/', ' '] + t
        } else {
            base
        },
        None => base,
    }
}

/// A float literal as written in a fixed-format card: given a `.` or an
/// exponent when it has neither, and an upper-case `E` exponent marker.
pub open spec fn float_text(t: Seq<char>) -> Seq<char> {
    let u = if t.contains('.') || t.contains('e') || t.contains('E') { t } else { t + seq!['.', '0'] };
    Seq::new(u.len(), |i: int| if u[i] == 'e' { 'E' } else { u[i] })
}

/// The 80 bytes one keyword/value/comment triple serializes to, or `None`
/// for a string too long for one card.
pub open spec fn serialized_card(kw: Seq<char>, v: ValueView, c: Option<Seq<char>>) -> Option<Seq<u8>> {
    match v {
        ValueView::Logical(b) => Some(card_bytes(fixed_kv_line(kw, if b { seq!['T'] } else { seq!['F'] }, c))),
        ValueView::Integer(i) => Some(card_bytes(fixed_kv_line(kw, dec_int(i as int), c))),
        ValueView::Float(t) => Some(card_bytes(fixed_kv_line(kw, float_text(t), c))),
        ValueView::Undefined => Some(card_bytes(fixed_kv_line(kw, seq![], c))),
        ValueView::Complex(re, im) => Some(
            card_bytes(fixed_kv_line(kw, seq!['('] + float_text(re) + seq![',', ' '] + float_text(im) + seq![')'], c)),
        ),
        ValueView::String(s) => if encode_utf8(string_line(kw, s, c)).len() > 80 {
            None
        } else {
            Some(card_bytes(string_line(kw, s, c)))
        },
        ValueView::Commentary(text) => Some(card_bytes(pad_to(kw, 8) + text)),
        ValueView::Invalid(raw) => Some(card_bytes(pad_to(kw, 8) + raw)),
    }
}

// ---------------------------------------------------------------------------
// Fixed-format card serialization
// ---------------------------------------------------------------------------

/// The UTF-8 bytes of `line`, cut to 80 and padded with spaces.
pub fn card_from_str(line: &str) -> (out: [u8; 80])
    ensures
        out@ == card_bytes(line@),
{
    let cs = chars_of(line);
    line_bytes(&cs)
}

/// `s` right-justified in a field of `n` characters.
fn right_justified(s: &Vec<char>, n: usize) -> (v: Vec<char>)
    ensures
        v@ == rjust(s@, n as int),
{
    let mut v: Vec<char> = Vec::new();
    if s.len() < n {
        let k = n - s.len();
        let mut i: usize = 0;
        while i < k
            invariant
                i <= k,
                v@ == Seq::new(i as nat, |j: int| ' '),
            decreases k - i,
        {
            v.push(' ');
            i = i + 1;
            assert(v@ =~= Seq::new(i as nat, |j: int| ' '));
        }
    }
    append_chars(&mut v, s);
    proof {
        if s@.len() >= n {
            assert(v@ =~= s@);
        }
    }
    v
}

fn push_comment(line: &mut Vec<char>, comment: Option<&str>)
    ensures
        final(line)@ == old(line)@ + comment_suffix(match comment {
            Some(c) => Some(c@),
            None => None,
        }),
{
    match comment {
        Some(c) => {
            if c.unicode_len() > 0 {
                append_str(line, " / ");
                append_str(line, c);
                proof {
                    reveal_strlit(" / ");
                }
                assert(final(line)@ =~= old(line)@ + (seq![' ', '/', ' '] + c@));
            } else {
                assert(final(line)@ =~= old(line)@ + seq![]);
            }
        },
        None => {
            assert(final(line)@ =~= old(line)@ + seq![]);
        },
    }
}

/// `KEYWORD = <value right-justified to byte 30>[ / comment]`.
pub fn fixed_kv(keyword: &str, value_field: &str, comment: Option<&str>) -> (out: [u8; 80])
    ensures
        out@ == card_bytes(fixed_kv_line(keyword@, value_field@, match comment {
            Some(c) => Some(c@),
            None => None,
        })),
{
    let kw = chars_of(keyword);
    let mut line = padded(&kw, 8);
    line.push('=');
    line.push(' ');
    let vf = chars_of(value_field);
    let rj = right_justified(&vf, 20);
    append_chars(&mut line, &rj);
    let ghost base = line@;
    push_comment(&mut line, comment);
    assert(base =~= pad_to(keyword@, 8) + seq!['=', ' '] + rjust(value_field@, 20));
    line_bytes(&line)
}

/// Quotes doubled, as inside a FITS string.
fn escaped(s: &Vec<char>) -> (v: Vec<char>)
    ensures
        v@ == escape_quotes(s@),
{
    let mut v: Vec<char> = Vec::new();
    let mut i: usize = 0;
    while i < s.len()
        invariant
            i <= s@.len(),
            v@ == escape_quotes(s@.subrange(0, i as int)),
        decreases s.len() - i,
    {
        let c = s[i];
        assert(s@.subrange(0, i + 1).drop_last() =~= s@.subrange(0, i as int));
        if c == '\'' {
            v.push('\'');
            v.push('\'');
        } else {
            v.push(c);
        }
        i = i + 1;
        assert(v@ =~= escape_quotes(s@.subrange(0, i as int)));
    }
    assert(s@.subrange(0, s@.len() as int) =~= s@);
    v
}

/// A single string-valued card. Returns `None` if the quoted value plus its
/// comment cannot fit in one 80-byte card.
pub fn string_card(keyword: &str, value: &str, comment: Option<&str>) -> (r: Option<[u8; 80]>)
    ensures
        ({
            let line = string_line(keyword@, value@, match comment {
                Some(c) => Some(c@),
                None => None,
            });
            if encode_utf8(line).len() > 80 {
                r is None
            } else {
                r matches Some(out) && out@ == card_bytes(line)
            }
        }),
{
    let vcs = chars_of(value);
    let esc = escaped(&vcs);
    let inner = if esc.len() < 8 { padded(&esc, 8) } else { esc };
    let kw = chars_of(keyword);
    let mut line = padded(&kw, 8);
    line.push('=');
    line.push(' ');
    line.push('\'');
    append_chars(&mut line, &inner);
    line.push('\'');
    let ghost base = line@;
    assert(base =~= pad_to(keyword@, 8) + seq!['=', ' ', '\''] + inner@ + seq!['\'']);
    match comment {
        Some(c) => {
            if c.unicode_len() > 0 {
                let s0 = vec_to_string(&line);
                let n = s0.as_str().as_bytes().len();
                if n < 30 {
                    let mut k: usize = 0;
                    while k < 30 - n
                        invariant
                            k <= 30 - n,
                            line@ == base + Seq::new(k as nat, |i: int| ' '),
                        decreases 30 - n - k,
                    {
                        line.push(' ');
                        k = k + 1;
                        assert(line@ =~= base + Seq::new(k as nat, |i: int| ' '));
                    }
                } else {
                    assert(line@ =~= base);
                }
                let ghost pb = line@;
                append_str(&mut line, " / ");
                append_str(&mut line, c);
                proof {
                    reveal_strlit(" / ");
                    assert(line@ =~= pb + seq![' ', '/', ' '] + c@);
                }
            }
        },
        None => {},
    }
    let s = vec_to_string(&line);
    if s.as_str().as_bytes().len() > 80 {
        return None;
    }
    Some(line_bytes(&line))
}

/// A float literal as written in a fixed-format card (see [`float_text`]).
pub fn format_float(t: &str) -> (s: Vec<char>)
    ensures
        s@ == float_text(t@),
{
    let cs = chars_of(t);
    let mut found = false;
    let mut i: usize = 0;
    while i < cs.len()
        invariant
            i <= cs@.len(),
            cs@ == t@,
            found == exists|j: int| 0 <= j < i && (cs@[j] == '.' || cs@[j] == 'e' || cs@[j] == 'E'),
        decreases cs.len() - i,
    {
        if cs[i] == '.' || cs[i] == 'e' || cs[i] == 'E' {
            found = true;
        }
        i = i + 1;
    }
    let ghost tt = t@;
    assert(found == (tt.contains('.') || tt.contains('e') || tt.contains('E'))) by {
        if found {
            let j = choose|j: int| 0 <= j < cs@.len() && (cs@[j] == '.' || cs@[j] == 'e' || cs@[j] == 'E');
            assert(tt[j] == cs@[j]);
        }
        if tt.contains('.') {
            let j = choose|j: int| 0 <= j < tt.len() && tt[j] == '.';
            assert(cs@[j] == '.');
        }
        if tt.contains('e') {
            let j = choose|j: int| 0 <= j < tt.len() && tt[j] == 'e';
            assert(cs@[j] == 'e');
        }
        if tt.contains('E') {
            let j = choose|j: int| 0 <= j < tt.len() && tt[j] == 'E';
            assert(cs@[j] == 'E');
        }
    }
    let mut u = cs;
    if !found {
        u.push('.');
        u.push('0');
        assert(u@ =~= tt + seq!['.', '0']);
    }
    let mut out: Vec<char> = Vec::new();
    let mut k: usize = 0;
    while k < u.len()
        invariant
            k <= u@.len(),
            out@ == Seq::new(k as nat, |j: int| if u@[j] == 'e' { 'E' } else { u@[j] }),
        decreases u.len() - k,
    {
        out.push(if u[k] == 'e' { 'E' } else { u[k] });
        k = k + 1;
        assert(out@ =~= Seq::new(k as nat, |j: int| if u@[j] == 'e' { 'E' } else { u@[j] }));
    }
    assert(out@ =~= float_text(t@));
    out
}

/// Serializes one keyword/value/comment triple to a fixed-format 80-byte
/// card. Errors (rather than truncating) on a string too long for one card.
pub fn serialize_card(keyword: &str, value: &Value, comment: Option<&str>) -> (r: Result<[u8; 80], FitsError>)
    ensures
        match serialized_card(keyword@, value@, match comment {
            Some(c) => Some(c@),
            None => None,
        }) {
            Some(bytes) => r matches Ok(out) && out@ == bytes,
            None => r matches Err(e) && e is Processing,
        },
{
    match value {
        Value::Logical(b) => {
            let vf: &str = if *b { "T" } else { "F" };
            proof {
                reveal_strlit("T");
                reveal_strlit("F");
                assert(vf@ == (if *b { seq!['T'] } else { seq!['F'] }));
            }
            Ok(fixed_kv(keyword, vf, comment))
        },
        Value::Integer(i) => {
            let s = vec_to_string(&int_chars(*i));
            Ok(fixed_kv(keyword, s.as_str(), comment))
        },
        Value::Float(f) => {
            let s = vec_to_string(&format_float(f.as_str()));
            Ok(fixed_kv(keyword, s.as_str(), comment))
        },
        Value::Undefined => {
            let out = fixed_kv(keyword, "", comment);
            proof {
                reveal_strlit("");
            }
            Ok(out)
        },
        Value::Complex(re, im) => {
            let mut v: Vec<char> = Vec::new();
            v.push('(');
            let a = format_float(re.as_str());
            append_chars(&mut v, &a);
            v.push(',');
            v.push(' ');
            let b = format_float(im.as_str());
            append_chars(&mut v, &b);
            v.push(')');
            assert(v@ =~= seq!['('] + float_text(re@) + seq![',', ' '] + float_text(im@) + seq![')']);
            let s = vec_to_string(&v);
            Ok(fixed_kv(keyword, s.as_str(), comment))
        },
        Value::String(s) => match string_card(keyword, s.as_str(), comment) {
            Some(out) => Ok(out),
            None => Err(FitsError::Processing(string_from("string value is too long for one card"))),
        },
        Value::Commentary(text) => {
            let kw = chars_of(keyword);
            let mut line = padded(&kw, 8);
            append_str(&mut line, text.as_str());
            Ok(line_bytes(&line))
        },
        Value::Invalid(raw) => {
            let kw = chars_of(keyword);
            let mut line = padded(&kw, 8);
            append_str(&mut line, raw.as_str());
            Ok(line_bytes(&line))
        },
    }
}

/// The `END` card.
pub fn end_card() -> (out: [u8; 80])
    ensures
        out@ == card_bytes("END"@),
{
    card_from_str("END")
}

/// The bytes of the cards, one after another.
pub open spec fn flat_cards(cards: Seq<Seq<u8>>) -> Seq<u8>
    decreases cards.len(),
{
    if cards.len() == 0 {
        seq![]
    } else {
        flat_cards(cards.drop_last()) + cards.last()
    }
}

/// The byte sequences of card images.
pub open spec fn card_seqs(cards: Seq<[u8; 80]>) -> Seq<Seq<u8>> {
    cards.map_values(|c: [u8; 80]| c@)
}

/// The cards, then `END`, padded with spaces to a whole number of blocks.
pub open spec fn assembled(cards: Seq<Seq<u8>>) -> Seq<u8> {
    let b = flat_cards(cards) + card_bytes("END"@);
    let rem = b.len() % 2880;
    if rem == 0 {
        b
    } else {
        b + Seq::new((2880 - rem) as nat, |i: int| 32u8)
    }
}

fn append_card(out: &mut Vec<u8>, card: &[u8; 80])
    ensures
        final(out)@ == old(out)@ + card@,
{
    let mut i: usize = 0;
    while i < 80
        invariant
            i <= 80,
            card@.len() == 80,
            out@ == old(out)@ + card@.subrange(0, i as int),
        decreases 80 - i,
    {
        out.push(card[i]);
        i = i + 1;
        assert(out@ =~= old(out)@ + card@.subrange(0, i as int));
    }
    assert(card@.subrange(0, 80) =~= card@);
}

/// Flattens cards, appends `END`, and pads to a whole number of 2880-byte
/// blocks with ASCII spaces.
pub fn assemble_header(cards: &Vec<[u8; 80]>) -> (bytes: Vec<u8>)
    ensures
        bytes@ == assembled(card_seqs(cards@)),
{
    let mut bytes: Vec<u8> = Vec::new();
    let mut i: usize = 0;
    while i < cards.len()
        invariant
            i <= cards@.len(),
            bytes@ == flat_cards(card_seqs(cards@.subrange(0, i as int))),
        decreases cards.len() - i,
    {
        append_card(&mut bytes, &cards[i]);
        assert(card_seqs(cards@.subrange(0, i + 1)).drop_last() =~= card_seqs(cards@.subrange(0, i as int)));
        i = i + 1;
    }
    assert(cards@.subrange(0, cards@.len() as int) =~= cards@);
    let end = end_card();
    append_card(&mut bytes, &end);
    let ghost b = bytes@;
    let rem = bytes.len() % 2880;
    if rem != 0 {
        let k = 2880 - rem;
        let mut j: usize = 0;
        while j < k
            invariant
                j <= k,
                bytes@ == b + Seq::new(j as nat, |q: int| 32u8),
            decreases k - j,
        {
            bytes.push(32u8);
            j = j + 1;
            assert(bytes@ =~= b + Seq::new(j as nat, |q: int| 32u8));
        }
    }
    bytes
}

// ---------------------------------------------------------------------------
// Keyword validation
// ---------------------------------------------------------------------------

/// Keywords that describe the physical structure of the HDU.
pub open spec fn is_structural(kw: Seq<char>) -> bool {
    ||| eq_ic(kw, "SIMPLE"@)
    ||| eq_ic(kw, "BITPIX"@)
    ||| eq_ic(kw, "NAXIS"@)
    ||| eq_ic(kw, "XTENSION"@)
    ||| eq_ic(kw, "END"@)
    ||| eq_ic(kw, "PCOUNT"@)
    ||| eq_ic(kw, "GCOUNT"@)
    ||| eq_ic(kw, "EXTEND"@)
    ||| (kw.len() > 5 && eq_ic(kw.subrange(0, 5), "NAXIS"@) && all_digits(kw.subrange(5, kw.len() as int)))
}

/// Keywords that describe the physical structure of the HDU. `HeaderBuilder`
/// owns these; a caller may not set them directly, and `update_header` may
/// not edit or remove them (doing so would invalidate the data-unit size).
pub fn is_structural_keyword(keyword: &str) -> (b: bool)
    ensures
        b == is_structural(keyword@),
{
    let k = chars_of(keyword);
    let n = k.len();
    assert(k@.subrange(0, n as int) =~= keyword@);
    if eq_ic_at(&k, 0, n, "SIMPLE") || eq_ic_at(&k, 0, n, "BITPIX") || eq_ic_at(&k, 0, n, "NAXIS")
        || eq_ic_at(&k, 0, n, "XTENSION") || eq_ic_at(&k, 0, n, "END") || eq_ic_at(&k, 0, n, "PCOUNT")
        || eq_ic_at(&k, 0, n, "GCOUNT") || eq_ic_at(&k, 0, n, "EXTEND") {
        return true;
    }
    if n <= 5 || !eq_ic_at(&k, 0, 5, "NAXIS") {
        return false;
    }
    digits_from(&k, 5)
}

/// Whether `k[from..]` is all decimal digits.
fn digits_from(k: &Vec<char>, from: usize) -> (b: bool)
    requires
        from <= k@.len(),
    ensures
        b == all_digits(k@.subrange(from as int, k@.len() as int)),
{
    let n = k.len();
    let mut i: usize = from;
    while i < n
        invariant
            from <= i <= n == k@.len(),
            forall|j: int| from <= j < i ==> is_digit(#[trigger] k@[j]),
        decreases n - i,
    {
        if !('0' <= k[i] && k[i] <= '9') {
            assert(k@.subrange(from as int, n as int)[i - from] == k@[i as int]);
            return false;
        }
        i = i + 1;
    }
    assert forall|j: int| 0 <= j < n - from implies is_digit(#[trigger] k@.subrange(from as int, n as int)[j]) by {
        assert(k@.subrange(from as int, n as int)[j] == k@[j + from]);
    }
    true
}

pub open spec fn is_keyword_char(c: char) -> bool {
    ('A' <= c <= 'Z') || ('0' <= c <= '9') || c == '-' || c == '_'
}

/// Whether `keyword` may be set by a caller: a commentary keyword, or 1–8
/// characters of `A–Z`, `0–9`, `-`, `_` that is not structural.
pub open spec fn user_keyword_ok(kw: Seq<char>) -> Result<(), ()> {
    if kw == "COMMENT"@ || kw == "HISTORY"@ || kw.len() == 0 {
        Ok(())
    } else if !(1 <= kw.len() <= 8 && forall|i: int| 0 <= i < kw.len() ==> is_keyword_char(#[trigger] kw[i])) {
        Err(())
    } else if is_structural(kw) {
        Err(())
    } else {
        Ok(())
    }
}

/// A user keyword must be 1–8 chars of `A–Z`, `0–9`, `-`, `_` (§4.1.2.1),
/// or one of the commentary keywords. Rejects lowercase, non-ASCII,
/// over-length and structural keywords.
pub fn validate_user_keyword(keyword: &str) -> (r: Result<(), FitsError>)
    ensures
        user_keyword_ok(keyword@) is Ok <==> r is Ok,
        r matches Err(e) ==> e is Processing,
        r matches Err(FitsError::Processing(m)) ==> m@ == (if is_structural(keyword@) && 1 <= keyword@.len() <= 8 && (
        forall|i: int| 0 <= i < keyword@.len() ==> is_keyword_char(#[trigger] keyword@[i])) {
            keyword@ + " is a structural keyword and is managed by the writer"@
        } else {
            "invalid FITS keyword "@ + debug_text(keyword@) + ": must be 1-8 chars of A-Z, 0-9, '-', '_'"@
        }),
{
    if str_eq(keyword, "COMMENT") || str_eq(keyword, "HISTORY") || keyword.unicode_len() == 0 {
        proof {
            reveal_strlit("");
        }
        return Ok(());
    }
    let k = chars_of(keyword);
    let n = k.len();
    let mut ok = 1 <= n && n <= 8;
    if ok {
        let mut i: usize = 0;
        while i < n
            invariant
                i <= n == k@.len(),
                k@ == keyword@,
                ok == forall|j: int| 0 <= j < i ==> is_keyword_char(#[trigger] k@[j]),
            decreases n - i,
        {
            let c = k[i];
            let good = ('A' <= c && c <= 'Z') || ('0' <= c && c <= '9') || c == '-' || c == '_';
            if !good {
                ok = false;
            }
            i = i + 1;
        }
    }
    if !ok {
        let mut m = string_from("invalid FITS keyword ");
        let d = debug_str(keyword);
        push_str(&mut m, d.as_str());
        push_str(&mut m, ": must be 1-8 chars of A-Z, 0-9, '-', '_'");
        return Err(FitsError::Processing(m));
    }
    if is_structural_keyword(keyword) {
        let mut m = string_from(keyword);
        push_str(&mut m, " is a structural keyword and is managed by the writer");
        return Err(FitsError::Processing(m));
    }
    Ok(())
}


// ---------------------------------------------------------------------------
// HeaderBuilder
// ---------------------------------------------------------------------------

#[derive(Debug, Clone, Copy, PartialEq, Eq, Structural)]
enum HeaderKind {
    Primary,
    ImageExt,
}

/// Bytes per pixel of a `BITPIX`.
pub open spec fn bpp_of(b: BitPix) -> int {
    (if bitpix_value(b) < 0 { -bitpix_value(b) } else { bitpix_value(b) }) / 8
}

/// Product of the axis lengths, each counted as at least one.
pub open spec fn prod_max1(axes: Seq<u64>) -> int
    decreases axes.len(),
{
    if axes.len() == 0 {
        1
    } else {
        prod_max1(axes.drop_last()) * (if axes.last() > 1 { axes.last() as int } else { 1 })
    }
}

/// Product of the axis lengths.
pub open spec fn prod_all(axes: Seq<u64>) -> int
    decreases axes.len(),
{
    if axes.len() == 0 {
        1
    } else {
        prod_all(axes.drop_last()) * axes.last()
    }
}

pub proof fn lemma_prod_max1_pos(axes: Seq<u64>)
    ensures
        prod_max1(axes) >= 1,
    decreases axes.len(),
{
    if axes.len() > 0 {
        lemma_prod_max1_pos(axes.drop_last());
        let p = prod_max1(axes.drop_last());
        let f: int = if axes.last() > 1 { axes.last() as int } else { 1 };
        assert(p * f >= 1) by (nonlinear_arith)
            requires p >= 1, f >= 1;
    }
}

pub proof fn lemma_prod_max1_prefix(axes: Seq<u64>, i: int)
    requires
        0 <= i <= axes.len(),
    ensures
        prod_max1(axes.subrange(0, i)) <= prod_max1(axes),
    decreases axes.len() - i,
{
    if i < axes.len() {
        lemma_prod_max1_prefix(axes, i + 1);
        let s = axes.subrange(0, i + 1);
        assert(s.drop_last() =~= axes.subrange(0, i));
        lemma_prod_max1_pos(axes.subrange(0, i));
        let p = prod_max1(axes.subrange(0, i));
        let f: int = if s.last() > 1 { s.last() as int } else { 1 };
        assert(p <= p * f) by (nonlinear_arith)
            requires p >= 1, f >= 1;
    }
    assert(axes.subrange(0, axes.len() as int) =~= axes);
}

/// The product of `axes[1..]` bounded by the product of all lengths
/// counted as at least one.
pub proof fn lemma_prod_tail_bound(axes: Seq<u64>)
    requires
        axes.len() > 0,
    ensures
        0 <= prod_all(axes.subrange(1, axes.len() as int)) <= prod_max1(axes),
    decreases axes.len(),
{
    if axes.len() == 1 {
        assert(axes.subrange(1, 1) =~= Seq::<u64>::empty());
        lemma_prod_max1_pos(axes);
    } else {
        let d = axes.drop_last();
        lemma_prod_tail_bound(d);
        assert(axes.subrange(1, axes.len() as int).drop_last() =~= d.subrange(1, d.len() as int));
        let p = prod_all(d.subrange(1, d.len() as int));
        let q = prod_max1(d);
        let l = axes.last() as int;
        let f: int = if l > 1 { l } else { 1 };
        assert(p * l <= q * f) by (nonlinear_arith)
            requires 0 <= p <= q, 0 <= l, l <= f;
        assert(p * l >= 0) by (nonlinear_arith)
            requires 0 <= p, 0 <= l;
    }
}

/// The 80-byte cards every image header starts with, in order; `None`
/// only if the `XTENSION` card could not be written.
pub open spec fn mandatory_seq(primary: bool, bitpix: BitPix, axes: Seq<u64>) -> Option<Seq<Seq<u8>>> {
    let first = if primary {
        Some(card_bytes(fixed_kv_line("SIMPLE"@, "T"@, Some("conforms to FITS standard"@))))
    } else {
        serialized_card("XTENSION"@, ValueView::String("IMAGE"@), Some("image extension"@))
    };
    match first {
        None => None,
        Some(f) => {
            let head = seq![
                f,
                card_bytes(fixed_kv_line("BITPIX"@, dec_int(bitpix_value(bitpix)), Some("bits per data value"@))),
                card_bytes(fixed_kv_line("NAXIS"@, dec(axes.len()), Some("number of data axes"@))),
            ];
            let axis_cards = Seq::new(
                axes.len(),
                |i: int| card_bytes(fixed_kv_line("NAXIS"@ + dec((i + 1) as nat), dec(axes[i] as nat), Some("axis length"@))),
            );
            let tail = if primary {
                seq![card_bytes(fixed_kv_line("EXTEND"@, "T"@, Some("file may contain extensions"@)))]
            } else {
                seq![
                    card_bytes(fixed_kv_line("PCOUNT"@, "0"@, Some("no group parameters"@))),
                    card_bytes(fixed_kv_line("GCOUNT"@, "1"@, Some("one data group"@))),
                ]
            };
            Some(head + axis_cards + tail)
        },
    }
}

/// Every card of `cs` serialized, or `None` if one cannot be.
pub open spec fn serialized_all(cs: Seq<CardView>) -> Option<Seq<Seq<u8>>>
    decreases cs.len(),
{
    if cs.len() == 0 {
        Some(seq![])
    } else {
        match serialized_all(cs.drop_last()) {
            None => None,
            Some(p) => match serialized_card(cs.last().0, cs.last().1, cs.last().2) {
                None => None,
                Some(b) => Some(p.push(b)),
            },
        }
    }
}

/// The extra cards after adding `(kw, v, c)`: `COMMENT`/`HISTORY`
/// accumulate; any other keyword replaces the value and comment of the
/// first extra card with a matching keyword (ignoring case), or is
/// appended.
pub open spec fn with_card(extra: Seq<CardView>, kw: Seq<char>, v: ValueView, c: Option<Seq<char>>) -> Seq<CardView> {
    if kw == "COMMENT"@ || kw == "HISTORY"@ {
        extra.push((kw, v, c))
    } else {
        match crate::header::first_kw(extra, kw, 0) {
            Some(i) => extra.update(i, (extra[i].0, v, c)),
            None => extra.push((kw, v, c)),
        }
    }
}

/// Builds one image HDU's header. Construct with [`primary_image`] or
/// [`image_ext`], then attach extra cards with [`card`] / the typed
/// `set_*` helpers. The mandatory keywords are emitted automatically in the
/// order and format the standard requires.
///
/// [`primary_image`]: HeaderBuilder::primary_image
/// [`image_ext`]: HeaderBuilder::image_ext
/// [`card`]: HeaderBuilder::card
#[derive(Debug, Clone)]
pub struct HeaderBuilder {
    kind: HeaderKind,
    bitpix: BitPix,
    axes: Vec<u64>,
    extra: Vec<Card>,
}

impl HeaderBuilder {
    pub closed spec fn is_primary(&self) -> bool {
        self.kind is Primary
    }

    pub closed spec fn spec_bitpix(&self) -> BitPix {
        self.bitpix
    }

    pub closed spec fn spec_axes(&self) -> Seq<u64> {
        self.axes@
    }

    pub closed spec fn spec_extra(&self) -> Seq<CardView> {
        views(self.extra@)
    }

    /// The declared element count times the pixel size fits in `u64`.
    pub open spec fn wf(&self) -> bool {
        prod_max1(self.spec_axes()) * bpp_of(self.spec_bitpix()) <= u64::MAX
    }

    fn new(kind: HeaderKind, bitpix: BitPix, axes: &[u64]) -> (r: Result<HeaderBuilder, FitsError>)
        ensures
            ({
                let bpp = bpp_of(bitpix);
                if prod_max1(axes@) * bpp <= u64::MAX {
                    r matches Ok(b) && b.kind == kind && b.bitpix == bitpix && b.axes@ == axes@
                        && b.extra@.len() == 0
                } else {
                    r == Err::<HeaderBuilder, FitsError>(FitsError::NaxisOverflow)
                }
            }),
    {
        let mut count: u64 = 1;
        let mut i: usize = 0;
        while i < axes.len()
            invariant
                i <= axes@.len(),
                count == prod_max1(axes@.subrange(0, i as int)),
            decreases axes.len() - i,
        {
            let n = axes[i];
            let f: u64 = if n > 1 { n } else { 1 };
            assert(axes@.subrange(0, i + 1).drop_last() =~= axes@.subrange(0, i as int));
            match count.checked_mul(f) {
                Some(c) => {
                    count = c;
                },
                None => {
                    proof {
                        lemma_prod_max1_prefix(axes@, i + 1);
                        lemma_prod_max1_pos(axes@);
                        let bpp = bpp_of(bitpix);
                        let p = prod_max1(axes@);
                        assert(p * bpp >= p) by (nonlinear_arith)
                            requires p >= 1, bpp >= 1;
                    }
                    return Err(FitsError::NaxisOverflow);
                },
            }
            i = i + 1;
        }
        assert(axes@.subrange(0, axes@.len() as int) =~= axes@);
        let bpp = bitpix.bytes_per_pixel() as u64;
        if count.checked_mul(bpp).is_none() {
            return Err(FitsError::NaxisOverflow);
        }
        let mut v: Vec<u64> = Vec::new();
        let mut k: usize = 0;
        while k < axes.len()
            invariant
                k <= axes@.len(),
                v@ == axes@.subrange(0, k as int),
            decreases axes.len() - k,
        {
            v.push(axes[k]);
            k = k + 1;
            assert(v@ =~= axes@.subrange(0, k as int));
        }
        assert(v@ =~= axes@);
        Ok(HeaderBuilder { kind, bitpix, axes: v, extra: Vec::new() })
    }

    /// A primary-HDU image header. `axes` is `NAXIS1..NAXISn`,
    /// fastest-varying axis first; empty `axes` means `NAXIS = 0` (a
    /// data-less primary).
    pub fn primary_image(bitpix: BitPix, axes: &[u64]) -> (r: Result<HeaderBuilder, FitsError>)
        ensures
            ({
                let bpp = bpp_of(bitpix);
                if prod_max1(axes@) * bpp <= u64::MAX {
                    r matches Ok(b) && b.is_primary() && b.spec_bitpix() == bitpix && b.spec_axes() == axes@
                        && b.spec_extra().len() == 0 && b.wf()
                } else {
                    r == Err::<HeaderBuilder, FitsError>(FitsError::NaxisOverflow)
                }
            }),
    {
        Self::new(HeaderKind::Primary, bitpix, axes)
    }

    /// An `IMAGE`-extension header.
    pub fn image_ext(bitpix: BitPix, axes: &[u64]) -> (r: Result<HeaderBuilder, FitsError>)
        ensures
            ({
                let bpp = bpp_of(bitpix);
                if prod_max1(axes@) * bpp <= u64::MAX {
                    r matches Ok(b) && !b.is_primary() && b.spec_bitpix() == bitpix && b.spec_axes() == axes@
                        && b.spec_extra().len() == 0 && b.wf()
                } else {
                    r == Err::<HeaderBuilder, FitsError>(FitsError::NaxisOverflow)
                }
            }),
    {
        Self::new(HeaderKind::ImageExt, bitpix, axes)
    }

    /// Appends a card after the mandatory block. A later `card` with a
    /// keyword already present replaces the earlier one (except `COMMENT`/
    /// `HISTORY`, which accumulate). Rejects invalid or structural
    /// keywords, and a value that cannot be written in one card.
    pub fn card(self, keyword: &str, value: Value, comment: Option<&str>) -> (r: Result<HeaderBuilder, FitsError>)
        ensures
            ({
                let c = match comment {
                    Some(c) => Some(c@),
                    None => None,
                };
                if user_keyword_ok(keyword@) is Ok && serialized_card(keyword@, value@, c) is Some {
                    r matches Ok(b) && b.is_primary() == self.is_primary() && b.spec_bitpix() == self.spec_bitpix()
                        && b.spec_axes() == self.spec_axes() && b.spec_extra() == with_card(
                        self.spec_extra(),
                        keyword@,
                        value@,
                        c,
                    ) && (self.wf() ==> b.wf())
                } else {
                    r matches Err(e) && e is Processing
                }
            }),
    {
        validate_user_keyword(keyword)?;
        serialize_card(keyword, &value, comment)?;
        let mut me = self;
        let ghost old_extra = views(me.extra@);
        let ghost k0 = me.kind;
        let ghost b0 = me.bitpix;
        let ghost a0 = me.axes@;
        let cm: Option<String> = match comment {
            Some(c) => Some(string_from(c)),
            None => None,
        };
        assert(opt_view(cm) == match comment {
            Some(c) => Some(c@),
            None => None::<Seq<char>>,
        });
        if str_eq(keyword, "COMMENT") || str_eq(keyword, "HISTORY") {
            me.extra.push(Card { keyword: string_from(keyword), value, comment: cm });
            assert(views(me.extra@) =~= old_extra.push((keyword@, value@, opt_view(cm))));
            return Ok(me);
        }
        let mut i: usize = 0;
        while i < me.extra.len()
            invariant
                i <= me.extra@.len(),
                old_extra == views(me.extra@),
                me.kind == k0,
                me.bitpix == b0,
                me.axes@ == a0,
                k0 == self.kind,
                b0 == self.bitpix,
                a0 == self.axes@,
                old_extra == self.spec_extra(),
                !(keyword@ == "COMMENT"@ || keyword@ == "HISTORY"@),
                user_keyword_ok(keyword@) is Ok,
                serialized_card(keyword@, value@, opt_view(cm)) is Some,
                opt_view(cm) == match comment {
                    Some(c) => Some(c@),
                    None => None::<Seq<char>>,
                },
                crate::header::first_kw(old_extra, keyword@, 0) == crate::header::first_kw(old_extra, keyword@, i as int),
            decreases me.extra.len() - i,
        {
            assert(old_extra[i as int] == me.extra@[i as int]@);
            if str_eq_ic(me.extra[i].keyword.as_str(), keyword) {
                let k = string_from(me.extra[i].keyword.as_str());
                me.extra.set(i, Card { keyword: k, value, comment: cm });
                assert(views(me.extra@) =~= old_extra.update(i as int, (old_extra[i as int].0, value@, opt_view(cm))));
                return Ok(me);
            }
            i = i + 1;
        }
        me.extra.push(Card { keyword: string_from(keyword), value, comment: cm });
        assert(views(me.extra@) =~= old_extra.push((keyword@, value@, opt_view(cm))));
        Ok(me)
    }

    pub fn set_i64(self, keyword: &str, value: i64, comment: Option<&str>) -> (r: Result<HeaderBuilder, FitsError>)
        ensures
            ({
                let c = match comment {
                    Some(c) => Some(c@),
                    None => None,
                };
                let v = ValueView::Integer(value);
                if user_keyword_ok(keyword@) is Ok && serialized_card(keyword@, v, c) is Some {
                    r matches Ok(b) && b.is_primary() == self.is_primary() && b.spec_bitpix() == self.spec_bitpix()
                        && b.spec_axes() == self.spec_axes() && b.spec_extra() == with_card(self.spec_extra(), keyword@, v, c)
                        && (self.wf() ==> b.wf())
                } else {
                    r matches Err(e) && e is Processing
                }
            }),
    {
        self.card(keyword, Value::Integer(value), comment)
    }

    pub fn set_bool(self, keyword: &str, value: bool, comment: Option<&str>) -> (r: Result<HeaderBuilder, FitsError>)
        ensures
            ({
                let c = match comment {
                    Some(c) => Some(c@),
                    None => None,
                };
                let v = ValueView::Logical(value);
                if user_keyword_ok(keyword@) is Ok && serialized_card(keyword@, v, c) is Some {
                    r matches Ok(b) && b.is_primary() == self.is_primary() && b.spec_bitpix() == self.spec_bitpix()
                        && b.spec_axes() == self.spec_axes() && b.spec_extra() == with_card(self.spec_extra(), keyword@, v, c)
                        && (self.wf() ==> b.wf())
                } else {
                    r matches Err(e) && e is Processing
                }
            }),
    {
        self.card(keyword, Value::Logical(value), comment)
    }

    pub fn set_str(self, keyword: &str, value: &str, comment: Option<&str>) -> (r: Result<HeaderBuilder, FitsError>)
        ensures
            ({
                let c = match comment {
                    Some(c) => Some(c@),
                    None => None,
                };
                let v = ValueView::String(value@);
                if user_keyword_ok(keyword@) is Ok && serialized_card(keyword@, v, c) is Some {
                    r matches Ok(b) && b.is_primary() == self.is_primary() && b.spec_bitpix() == self.spec_bitpix()
                        && b.spec_axes() == self.spec_axes() && b.spec_extra() == with_card(self.spec_extra(), keyword@, v, c)
                        && (self.wf() ==> b.wf())
                } else {
                    r matches Err(e) && e is Processing
                }
            }),
    {
        self.card(keyword, Value::String(string_from(value)), comment)
    }

    /// Adds a `COMMENT` card.
    pub fn comment(self, text: &str) -> (r: Result<HeaderBuilder, FitsError>)
        ensures
            ({
                let v = ValueView::Commentary(text@);
                r matches Ok(b) && b.is_primary() == self.is_primary() && b.spec_bitpix() == self.spec_bitpix()
                    && b.spec_axes() == self.spec_axes() && b.spec_extra() == with_card(self.spec_extra(), "COMMENT"@, v, None)
                    && (self.wf() ==> b.wf())
            }),
    {
        proof {
            reveal_strlit("COMMENT");
        }
        self.card("COMMENT", Value::Commentary(string_from(text)), None)
    }

    pub fn bitpix(&self) -> (b: BitPix)
        ensures
            b == self.spec_bitpix(),
    {
        self.bitpix
    }

    /// `NAXIS1` (the fastest-varying axis extent), i.e. one row's pixel
    /// count. Zero when `NAXIS = 0`.
    pub fn row_len(&self) -> (n: usize)
        ensures
            n == (if self.spec_axes().len() == 0 { 0 } else { self.spec_axes()[0] as usize }),
    {
        if self.axes.len() == 0 {
            0
        } else {
            #[verifier::truncate]
            (self.axes[0] as usize)
        }
    }

    /// Number of rows in the data unit (`∏ NAXIS2..NAXISn`). Zero when
    /// there is no data.
    pub fn total_rows(&self) -> (n: usize)
        requires
            self.wf(),
        ensures
            n == (if self.spec_axes().len() == 0 || self.spec_axes().contains(0) {
                0
            } else {
                prod_all(self.spec_axes().subrange(1, self.spec_axes().len() as int)) as usize
            }),
    {
        let n = self.axes.len();
        if n == 0 {
            return 0;
        }
        let mut j: usize = 0;
        while j < n
            invariant
                j <= n == self.axes@.len(),
                forall|q: int| 0 <= q < j ==> self.axes@[q] != 0,
            decreases n - j,
        {
            if self.axes[j] == 0 {
                assert(self.axes@[j as int] == 0);
                return 0;
            }
            j = j + 1;
        }
        proof {
            lemma_prod_tail_bound(self.axes@);
            lemma_prod_max1_pos(self.axes@);
            let bpp = bpp_of(self.bitpix);
            let p = prod_max1(self.axes@);
            assert(p <= p * bpp) by (nonlinear_arith)
                requires p >= 1, bpp >= 1;
        }
        let ghost tail = self.axes@.subrange(1, n as int);
        let mut prod: u64 = 1;
        let mut i: usize = 1;
        while i < n
            invariant
                1 <= i <= n == self.axes@.len(),
                tail == self.axes@.subrange(1, n as int),
                prod == prod_all(self.axes@.subrange(1, i as int)),
                prod_all(tail) <= u64::MAX,
                forall|q: int| 0 <= q < n ==> self.axes@[q] != 0,
            decreases n - i,
        {
            proof {
                let s = self.axes@.subrange(1, i + 1);
                assert(s.drop_last() =~= self.axes@.subrange(1, i as int));
                lemma_prod_all_prefix(tail, i as int);
                assert(tail.subrange(0, i as int) =~= s);
            }
            prod = prod * self.axes[i];
            i = i + 1;
        }
        #[verifier::truncate]
        (prod as usize)
    }
}

proof fn lemma_prod_all_prefix(s: Seq<u64>, i: int)
    requires
        0 <= i <= s.len(),
        forall|q: int| 0 <= q < s.len() ==> s[q] != 0,
    ensures
        0 <= prod_all(s.subrange(0, i)) <= prod_all(s),
    decreases s.len() - i,
{
    if i < s.len() {
        lemma_prod_all_prefix(s, i + 1);
        let t = s.subrange(0, i + 1);
        assert(t.drop_last() =~= s.subrange(0, i));
        lemma_prod_all_nonneg(s.subrange(0, i));
        let p = prod_all(s.subrange(0, i));
        let l = s[i] as int;
        assert(p <= p * l) by (nonlinear_arith)
            requires p >= 0, l >= 1;
        assert(p * l >= 0) by (nonlinear_arith)
            requires p >= 0, l >= 1;
    } else {
        assert(s.subrange(0, s.len() as int) =~= s);
        lemma_prod_all_nonneg(s);
    }
}

proof fn lemma_prod_all_nonneg(s: Seq<u64>)
    ensures
        prod_all(s) >= 0,
    decreases s.len(),
{
    if s.len() > 0 {
        lemma_prod_all_nonneg(s.drop_last());
        let p = prod_all(s.drop_last());
        let l = s.last() as int;
        assert(p * l >= 0) by (nonlinear_arith)
            requires p >= 0, l >= 0;
    }
}


impl HeaderBuilder {
    /// The header bytes this builder serializes to, or `None` when a card
    /// cannot be written.
    pub open spec fn spec_bytes(&self) -> Option<Seq<u8>> {
        match mandatory_seq(self.is_primary(), self.spec_bitpix(), self.spec_axes()) {
            None => None,
            Some(m) => match serialized_all(self.spec_extra()) {
                None => None,
                Some(x) => Some(assembled(m + x)),
            },
        }
    }

    fn mandatory_cards(&self) -> (r: Result<Vec<[u8; 80]>, FitsError>)
        ensures
            match mandatory_seq(self.is_primary(), self.spec_bitpix(), self.spec_axes()) {
                Some(m) => r matches Ok(v) && card_seqs(v@) == m,
                None => r matches Err(e) && e is Processing,
            },
    {
        let mut cards: Vec<[u8; 80]> = Vec::new();
        let primary = self.kind == HeaderKind::Primary;
        if primary {
            cards.push(fixed_kv("SIMPLE", "T", Some("conforms to FITS standard")));
        } else {
            match string_card("XTENSION", "IMAGE", Some("image extension")) {
                Some(c) => {
                    cards.push(c);
                },
                None => {
                    return Err(FitsError::Processing(string_from("the XTENSION card does not fit")));
                },
            }
        }
        let bp = vec_to_string(&int_chars(self.bitpix.as_i64()));
        cards.push(fixed_kv("BITPIX", bp.as_str(), Some("bits per data value")));
        let na = vec_to_string(&crate::text::dec_chars(self.axes.len() as u64));
        cards.push(fixed_kv("NAXIS", na.as_str(), Some("number of data axes")));
        let ghost head = card_seqs(cards@);
        assert(head.len() == 3);
        let mut i: usize = 0;
        while i < self.axes.len()
            invariant
                i <= self.axes@.len(),
                card_seqs(cards@) == head + Seq::new(
                    i as nat,
                    |q: int| card_bytes(fixed_kv_line("NAXIS"@ + dec((q + 1) as nat), dec(self.axes@[q] as nat), Some("axis length"@))),
                ),
            decreases self.axes.len() - i,
        {
            let mut key = string_from("NAXIS");
            crate::text::push_u64(&mut key, (i + 1) as u64);
            let val = vec_to_string(&crate::text::dec_chars(self.axes[i]));
            let ghost before = card_seqs(cards@);
            let card = fixed_kv(key.as_str(), val.as_str(), Some("axis length"));
            cards.push(card);
            proof {
                let f = |q: int| card_bytes(fixed_kv_line("NAXIS"@ + dec((q + 1) as nat), dec(self.axes@[q] as nat), Some("axis length"@)));
                assert(card_seqs(cards@) =~= before.push(card@));
                assert(card@ == f(i as int));
                assert(Seq::new((i + 1) as nat, f) =~= Seq::new(i as nat, f).push(f(i as int)));
                assert(head + Seq::new((i + 1) as nat, f) =~= (head + Seq::new(i as nat, f)).push(f(i as int)));
            }
            i = i + 1;
        }
        let ghost mid = card_seqs(cards@);
        if primary {
            let e = fixed_kv("EXTEND", "T", Some("file may contain extensions"));
            cards.push(e);
            assert(card_seqs(cards@) =~= mid.push(e@));
            assert(mid.push(e@) =~= mid + seq![e@]);
        } else {
            let p = fixed_kv("PCOUNT", "0", Some("no group parameters"));
            cards.push(p);
            assert(card_seqs(cards@) =~= mid.push(p@));
            let g = fixed_kv("GCOUNT", "1", Some("one data group"));
            cards.push(g);
            assert(card_seqs(cards@) =~= mid.push(p@).push(g@));
            assert(mid.push(p@).push(g@) =~= mid + seq![p@, g@]);
        }
        Ok(cards)
    }

    /// The full header block(s): mandatory cards, then the extra cards,
    /// then `END`, padded to a block boundary with spaces.
    pub fn serialize(&self) -> (r: Result<Vec<u8>, FitsError>)
        ensures
            match self.spec_bytes() {
                Some(b) => r matches Ok(v) && v@ == b,
                None => r matches Err(e) && e is Processing,
            },
    {
        let mut cards = self.mandatory_cards()?;
        let ghost m = card_seqs(cards@);
        let mut i: usize = 0;
        while i < self.extra.len()
            invariant
                i <= self.extra@.len(),
                mandatory_seq(self.is_primary(), self.spec_bitpix(), self.spec_axes()) == Some(m),
                serialized_all(views(self.extra@.subrange(0, i as int))) matches Some(x) && card_seqs(cards@) == m + x,
            decreases self.extra.len() - i,
        {
            let c = &self.extra[i];
            let cm: Option<&str> = match &c.comment {
                Some(s) => Some(s.as_str()),
                None => None,
            };
            let ghost prev = serialized_all(views(self.extra@.subrange(0, i as int)))->Some_0;
            assert(views(self.extra@.subrange(0, i + 1)).drop_last() =~= views(self.extra@.subrange(0, i as int)));
            assert(views(self.extra@.subrange(0, i + 1)).last() == c@);
            let bytes = match serialize_card(c.keyword.as_str(), &c.value, cm) {
                Ok(b) => b,
                Err(e) => {
                    proof {
                        lemma_serialized_all_prefix_none(views(self.extra@), i + 1);
                        assert(views(self.extra@).subrange(0, i + 1) =~= views(self.extra@.subrange(0, i + 1)));
                    }
                    return Err(e);
                },
            };
            let ghost before = card_seqs(cards@);
            cards.push(bytes);
            assert(card_seqs(cards@) =~= before.push(bytes@));
            assert(m + prev.push(bytes@) =~= (m + prev).push(bytes@));
            i = i + 1;
        }
        assert(self.extra@.subrange(0, self.extra@.len() as int) =~= self.extra@);
        Ok(assemble_header(&cards))
    }
}

/// Once a prefix cannot be serialized, neither can the whole sequence.
pub proof fn lemma_serialized_all_prefix_none(cs: Seq<CardView>, i: int)
    requires
        0 <= i <= cs.len(),
        serialized_all(cs.subrange(0, i)) is None,
    ensures
        serialized_all(cs) is None,
    decreases cs.len() - i,
{
    if i < cs.len() {
        assert(cs.subrange(0, i + 1).drop_last() =~= cs.subrange(0, i));
        lemma_serialized_all_prefix_none(cs, i + 1);
    } else {
        assert(cs.subrange(0, i) =~= cs);
    }
}

// ---------------------------------------------------------------------------
// FitsWriter
// ---------------------------------------------------------------------------

/// Sequences a FITS file HDU by HDU. The first HDU must come from
/// [`HeaderBuilder::primary_image`]; any later HDU from
/// [`HeaderBuilder::image_ext`]. The writer holds the output sink and
/// decides what is written to it; the bytes themselves are written by
/// whoever owns the sink's I/O.
#[derive(Debug)]
pub struct FitsWriter<W> {
    inner: W,
    hdus_written: usize,
}

impl<W> FitsWriter<W> {
    pub closed spec fn spec_hdus_written(&self) -> int {
        self.hdus_written as int
    }

    pub closed spec fn spec_inner(&self) -> W {
        self.inner
    }

    pub fn new(inner: W) -> (w: FitsWriter<W>)
        ensures
            w.spec_hdus_written() == 0,
            w.spec_inner() == inner,
    {
        FitsWriter { inner, hdus_written: 0 }
    }

    /// Number of HDUs written so far.
    pub fn hdus_written(&self) -> (n: usize)
        ensures
            n == self.spec_hdus_written(),
    {
        self.hdus_written
    }

    /// The header bytes of the next image HDU. Fails when the pixel type's
    /// natural `BITPIX` (`storage_bitpix`) is not the header's, when the
    /// first HDU is not a primary header or a later one is, and when a
    /// card cannot be written.
    pub fn image_header(&self, header: &HeaderBuilder, storage_bitpix: Option<i64>) -> (r: Result<Vec<u8>, FitsError>)
        ensures
            storage_bitpix != Some(bitpix_value(header.spec_bitpix()) as i64) ==> (r matches Err(e) && e is Processing),
            storage_bitpix == Some(bitpix_value(header.spec_bitpix()) as i64) && (self.spec_hdus_written() == 0)
                != header.is_primary() ==> (r matches Err(e) && e is Processing),
            storage_bitpix == Some(bitpix_value(header.spec_bitpix()) as i64) && (self.spec_hdus_written() == 0)
                == header.is_primary() ==> match header.spec_bytes() {
                Some(b) => r matches Ok(v) && v@ == b,
                None => r matches Err(e) && e is Processing,
            },
    {
        let bp = header.bitpix().as_i64();
        match storage_bitpix {
            Some(s) => {
                if s != bp {
                    return Err(FitsError::Processing(string_from("pixel type is not the natural storage type for BITPIX")));
                }
            },
            None => {
                return Err(FitsError::Processing(string_from("pixel type is not the natural storage type for BITPIX")));
            },
        }
        let first = self.hdus_written == 0;
        let is_primary = header.kind == HeaderKind::Primary;
        if first != is_primary {
            if first {
                return Err(FitsError::Processing(string_from("the first HDU must be a primary header")));
            } else {
                return Err(FitsError::Processing(string_from("HDUs after the first must be IMAGE extensions")));
            }
        }
        header.serialize()
    }

    /// Prepares the next image HDU: checks the pixel type and the HDU's
    /// place as [`image_header`](Self::image_header) does, and on success
    /// gives back its header bytes (for the sink) and the rows of its data
    /// unit, none written yet. Once the bytes are written, [`record_hdu`]
    /// counts the HDU.
    ///
    /// [`record_hdu`]: Self::record_hdu
    pub fn begin_image_hdu(&self, header: &HeaderBuilder, storage_bitpix: Option<i64>) -> (r: Result<
        (Vec<u8>, ImageRows),
        FitsError,
    >)
        requires
            header.wf(),
        ensures
            r is Err ==> r->Err_0 is Processing || r->Err_0 is NaxisOverflow,
            (if header.spec_axes().len() == 0 { 0 } else { header.spec_axes()[0] as usize }) * bpp_of(
                header.spec_bitpix(),
            ) > usize::MAX ==> r == Err::<(Vec<u8>, ImageRows), FitsError>(FitsError::NaxisOverflow),
            storage_bitpix != Some(bitpix_value(header.spec_bitpix()) as i64) ==> r is Err,
            (self.spec_hdus_written() == 0) != header.is_primary() ==> r is Err,
            storage_bitpix == Some(bitpix_value(header.spec_bitpix()) as i64) && (self.spec_hdus_written() == 0)
                == header.is_primary() && (if header.spec_axes().len() == 0 { 0 } else { header.spec_axes()[0] as usize })
                * bpp_of(header.spec_bitpix()) <= usize::MAX ==> match header.spec_bytes() {
                Some(b) => r matches Ok((v, rows)) && v@ == b && rows.wf() && rows.spec_data_bytes() == 0
                    && rows.spec_px_bytes() == bpp_of(header.spec_bitpix()) && rows.spec_row_len() == (if header.spec_axes().len() == 0 {
                    0
                } else {
                    header.spec_axes()[0] as usize
                }) && rows.spec_rows_left() == (if header.spec_axes().len() == 0 || header.spec_axes().contains(0) {
                    0
                } else {
                    prod_all(header.spec_axes().subrange(1, header.spec_axes().len() as int)) as usize
                }),
                None => r is Err,
            },
    {
        if header.row_len().checked_mul(header.bitpix().bytes_per_pixel()).is_none() {
            return Err(FitsError::NaxisOverflow);
        }
        let bytes = self.image_header(header, storage_bitpix)?;
        Ok((bytes, header.image_rows()))
    }

    /// Records that one more HDU has been written.
    pub fn record_hdu(&mut self)
        requires
            old(self).spec_hdus_written() < usize::MAX,
        ensures
            final(self).spec_hdus_written() == old(self).spec_hdus_written() + 1,
            final(self).spec_inner() == old(self).spec_inner(),
    {
        self.hdus_written = self.hdus_written + 1;
    }

    /// The output sink.
    pub fn inner_mut(&mut self) -> (r: &mut W)
        ensures
            *r == old(self).spec_inner(),
            final(self).spec_inner() == *final(r),
            final(self).spec_hdus_written() == old(self).spec_hdus_written(),
    {
        &mut self.inner
    }

    /// Gives back the output sink.
    pub fn into_inner(self) -> (w: W)
        ensures
            w == self.spec_inner(),
    {
        self.inner
    }
}

// ---------------------------------------------------------------------------
// Image data, row by row
// ---------------------------------------------------------------------------

/// With no zero axis, the product of all axes is the first axis times the
/// product of the others, and equals the product counting each as at
/// least one.
proof fn lemma_prod_split(axes: Seq<u64>)
    requires
        axes.len() > 0,
        !axes.contains(0),
    ensures
        prod_all(axes) == axes[0] * prod_all(axes.subrange(1, axes.len() as int)),
        prod_all(axes) == prod_max1(axes),
    decreases axes.len(),
{
    let d = axes.drop_last();
    assert(axes[0] != 0);
    assert(axes.last() != 0) by {
        assert(axes[axes.len() - 1] == axes.last());
    }
    if axes.len() == 1 {
        assert(axes.subrange(1, 1) =~= Seq::<u64>::empty());
        assert(d =~= Seq::<u64>::empty());
        assert(axes.last() == axes[0]);
        assert(prod_all(axes) == prod_all(d) * axes[0]);
        assert(prod_max1(axes) == prod_max1(d) * axes[0]);
    } else {
        assert(!d.contains(0)) by {
            if d.contains(0) {
                let k = choose|k: int| 0 <= k < d.len() && d[k] == 0;
                assert(axes[k] == 0);
            }
        }
        lemma_prod_split(d);
        let tail = axes.subrange(1, axes.len() as int);
        assert(tail.drop_last() =~= d.subrange(1, d.len() as int));
        assert(tail.last() == axes.last());
        assert(d[0] == axes[0]);
        let a = axes[0] as int;
        let t = prod_all(d.subrange(1, d.len() as int));
        let l = axes.last() as int;
        assert(prod_all(axes) == prod_all(d) * l);
        assert(prod_max1(axes) == prod_max1(d) * l);
        assert(prod_all(tail) == t * l);
        assert(prod_all(d) == a * t);
        assert(a * t * l == a * (t * l)) by (nonlinear_arith);
    }
}

/// The state of an image's data unit being written row by row: the pixel
/// size, the row length, the rows still owed and the bytes written so far.
#[derive(Debug)]
pub struct ImageRows {
    px_bytes: usize,
    row_len: usize,
    rows_left: usize,
    data_bytes: u64,
}

impl ImageRows {
    pub closed spec fn spec_px_bytes(&self) -> int {
        self.px_bytes as int
    }

    pub closed spec fn spec_row_len(&self) -> int {
        self.row_len as int
    }

    pub closed spec fn spec_rows_left(&self) -> int {
        self.rows_left as int
    }

    pub closed spec fn spec_data_bytes(&self) -> int {
        self.data_bytes as int
    }

    /// A row's bytes fit in memory, and everything still owed fits in the
    /// byte count.
    pub open spec fn wf(&self) -> bool {
        &&& self.spec_row_len() * self.spec_px_bytes() <= usize::MAX
        &&& self.spec_data_bytes() + self.spec_rows_left() * (self.spec_row_len() * self.spec_px_bytes()) <= u64::MAX
    }

    /// Bytes of one encoded row.
    pub fn row_bytes(&self) -> (n: usize)
        requires
            self.wf(),
        ensures
            n == self.spec_row_len() * self.spec_px_bytes(),
    {
        self.row_len * self.px_bytes
    }

    /// Rows still owed.
    pub fn rows_left(&self) -> (n: usize)
        ensures
            n == self.spec_rows_left(),
    {
        self.rows_left
    }

    /// Takes one row of `len` pixels: the number of bytes to encode and
    /// write for it. Fails, changing nothing, when every row is already
    /// written or when `len` is not the row length.
    pub fn accept_row(&mut self, len: usize) -> (r: Result<usize, FitsError>)
        requires
            old(self).wf(),
        ensures
            final(self).wf(),
            final(self).spec_px_bytes() == old(self).spec_px_bytes(),
            final(self).spec_row_len() == old(self).spec_row_len(),
            old(self).spec_rows_left() == 0 ==> (r matches Err(e) && e is Processing) && *final(self) == *old(self),
            old(self).spec_rows_left() > 0 && len != old(self).spec_row_len() ==> r == Err::<usize, FitsError>(
                FitsError::BufferLenMismatch { expected: old(self).spec_row_len() as usize, got: len },
            ) && *final(self) == *old(self),
            old(self).spec_rows_left() > 0 && len == old(self).spec_row_len() ==> r == Ok::<usize, FitsError>(
                (old(self).spec_row_len() * old(self).spec_px_bytes()) as usize,
            ) && final(self).spec_rows_left() == old(self).spec_rows_left() - 1 && final(self).spec_data_bytes()
                == old(self).spec_data_bytes() + old(self).spec_row_len() * old(self).spec_px_bytes(),
    {
        if self.rows_left == 0 {
            return Err(FitsError::Processing(string_from("every image row has already been written")));
        }
        if len != self.row_len {
            return Err(FitsError::BufferLenMismatch { expected: self.row_len, got: len });
        }
        let n = self.row_len * self.px_bytes;
        proof {
            let b = n as int;
            let r = self.rows_left as int;
            let d = self.data_bytes as int;
            assert(r * b == b + (r - 1) * b) by (nonlinear_arith);
            assert((r - 1) * b >= 0) by (nonlinear_arith)
                requires r >= 1, b >= 0;
        }
        self.data_bytes = self.data_bytes + n as u64;
        self.rows_left = self.rows_left - 1;
        Ok(n)
    }

    /// The zero bytes that pad the data unit to a whole block, once every
    /// row is written; fails while rows are still owed.
    pub fn finish(&self) -> (r: Result<u64, FitsError>)
        requires
            self.wf(),
        ensures
            self.spec_rows_left() != 0 ==> (r matches Err(e) && e is Processing),
            self.spec_rows_left() == 0 ==> (r matches Ok(pad) && pad < 2880 && (self.spec_data_bytes() + pad) % 2880
                == 0),
    {
        if self.rows_left != 0 {
            return Err(FitsError::Processing(string_from("image rows not written")));
        }
        let rem = self.data_bytes % 2880;
        let pad: u64 = if rem == 0 { 0 } else { 2880 - rem };
        assert((self.data_bytes + pad) % 2880 == 0) by (nonlinear_arith)
            requires rem == self.data_bytes % 2880, pad == (if rem == 0 { 0 } else { 2880 - rem }), self.data_bytes >= 0;
        Ok(pad)
    }
}

impl HeaderBuilder {
    /// The number of pixels a whole image's data must hold: the row
    /// length times the number of rows, saturating at `usize::MAX`.
    pub fn data_len(&self) -> (n: usize)
        requires
            self.wf(),
        ensures
            ({
                let row = if self.spec_axes().len() == 0 { 0 } else { self.spec_axes()[0] as usize };
                let rows = if self.spec_axes().len() == 0 || self.spec_axes().contains(0) {
                    0
                } else {
                    prod_all(self.spec_axes().subrange(1, self.spec_axes().len() as int)) as usize
                };
                n == (if row * rows <= usize::MAX { row * rows } else { usize::MAX as int })
            }),
    {
        let row = self.row_len();
        let rows = self.total_rows();
        match row.checked_mul(rows) {
            Some(n) => n,
            None => usize::MAX,
        }
    }

    /// Checks that a whole image's data holds `got` pixels: fails with
    /// `BufferLenMismatch` naming [`data_len`](Self::data_len) otherwise.
    pub fn check_data_len(&self, got: usize) -> (r: Result<(), FitsError>)
        requires
            self.wf(),
        ensures
            ({
                let row = if self.spec_axes().len() == 0 { 0 } else { self.spec_axes()[0] as usize };
                let rows = if self.spec_axes().len() == 0 || self.spec_axes().contains(0) {
                    0
                } else {
                    prod_all(self.spec_axes().subrange(1, self.spec_axes().len() as int)) as usize
                };
                let expected = if row * rows <= usize::MAX { row * rows } else { usize::MAX as int };
                if got == expected {
                    r is Ok
                } else {
                    r == Err::<(), FitsError>(FitsError::BufferLenMismatch { expected: expected as usize, got })
                }
            }),
    {
        let expected = self.data_len();
        if got != expected {
            Err(FitsError::BufferLenMismatch { expected, got })
        } else {
            Ok(())
        }
    }

    /// The rows of this image's data unit, none written yet: `NAXIS1`
    /// pixels each, `NAXIS2 × … × NAXISn` of them, each pixel the size
    /// `BITPIX` gives. A row's bytes must fit in memory.
    pub fn image_rows(&self) -> (r: ImageRows)
        requires
            self.wf(),
            (if self.spec_axes().len() == 0 { 0 } else { self.spec_axes()[0] as usize }) * bpp_of(self.spec_bitpix())
                <= usize::MAX,
        ensures
            r.wf(),
            r.spec_px_bytes() == bpp_of(self.spec_bitpix()),
            r.spec_row_len() == (if self.spec_axes().len() == 0 { 0 } else { self.spec_axes()[0] as usize }),
            r.spec_rows_left() == (if self.spec_axes().len() == 0 || self.spec_axes().contains(0) {
                0
            } else {
                prod_all(self.spec_axes().subrange(1, self.spec_axes().len() as int)) as usize
            }),
            r.spec_data_bytes() == 0,
    {
        let px = self.bitpix.bytes_per_pixel();
        let row_len = self.row_len();
        let rows = self.total_rows();
        proof {
            let axes = self.axes@;
            let bpp = bpp_of(self.bitpix);
            let b = row_len as int * px as int;
            let total = rows as int * b;
            if axes.len() > 0 && !axes.contains(0) {
                lemma_prod_split(axes);
                let x = axes[0];
                assert((x as usize) as int <= x as int) by (bit_vector);
                let t = prod_all(axes.subrange(1, axes.len() as int));
                lemma_prod_tail_bound(axes);
                lemma_prod_max1_pos(axes);
                let tt: u64 = t as u64;
                assert((tt as usize) as int <= tt as int) by (bit_vector);
                assert(rows as int <= t);
                assert(total <= x * t * bpp) by (nonlinear_arith)
                    requires
                        total == rows * (row_len as int * bpp),
                        rows <= t,
                        row_len as int <= x as int,
                        rows >= 0,
                        row_len >= 0,
                        bpp >= 1;
                assert(x * t * bpp == prod_max1(axes) * bpp);
            } else {
                assert(rows == 0);
                assert(total == 0);
            }
        }
        ImageRows { px_bytes: px, row_len, rows_left: rows, data_bytes: 0 }
    }
}

// ---------------------------------------------------------------------------
// Header edits
// ---------------------------------------------------------------------------

/// One edit for `update_header`.
#[derive(Debug, Clone)]
pub enum CardEdit {
    /// Add the keyword, or replace its value/comment if already present.
    Put { keyword: String, value: Value, comment: Option<String> },
    /// Remove the keyword if present (no error if absent).
    Remove { keyword: String },
}

impl CardEdit {
    pub fn set(keyword: String, value: Value) -> (e: CardEdit)
        ensures
            e == (CardEdit::Put { keyword, value, comment: None }),
    {
        CardEdit::Put { keyword, value, comment: None }
    }

    pub fn set_with_comment(keyword: String, value: Value, comment: String) -> (e: CardEdit)
        ensures
            e == (CardEdit::Put { keyword, value, comment: Some(comment) }),
    {
        CardEdit::Put { keyword, value, comment: Some(comment) }
    }

    pub fn remove(keyword: String) -> (e: CardEdit)
        ensures
            e == (CardEdit::Remove { keyword }),
    {
        CardEdit::Remove { keyword }
    }
}

/// Cards that trail a header: `COMMENT`, `HISTORY` and blank keywords.
pub open spec fn is_trailing_kw(kw: Seq<char>) -> bool {
    eq_ic(kw, "COMMENT"@) || eq_ic(kw, "HISTORY"@) || kw.len() == 0
}

/// Start of the run of trailing commentary cards that ends at `at`.
pub open spec fn trailing_start(cards: Seq<CardView>, at: int) -> int
    decreases at,
{
    if 0 < at <= cards.len() && is_trailing_kw(cards[at - 1].0) {
        trailing_start(cards, at - 1)
    } else {
        at
    }
}

/// The cards whose keyword does not match `kw`.
pub open spec fn without_kw(cards: Seq<CardView>, kw: Seq<char>) -> Seq<CardView>
    decreases cards.len(),
{
    if cards.len() == 0 {
        seq![]
    } else if eq_ic(cards.last().0, kw) {
        without_kw(cards.drop_last(), kw)
    } else {
        without_kw(cards.drop_last(), kw).push(cards.last())
    }
}

/// The cards after one edit; `None` when the edit is refused.
pub open spec fn apply_edit(cards: Seq<CardView>, e: CardEdit) -> Option<Seq<CardView>> {
    match e {
        CardEdit::Put { keyword, value, comment } => {
            let kw = keyword@;
            if is_structural(kw) || user_keyword_ok(kw) is Err {
                None
            } else {
                let c = (kw, value@, opt_view(comment));
                match crate::header::first_kw(cards, kw, 0) {
                    Some(i) => Some(cards.update(i, c)),
                    None => Some(cards.insert(trailing_start(cards, cards.len() as int), c)),
                }
            }
        },
        CardEdit::Remove { keyword } => if is_structural(keyword@) {
            None
        } else {
            Some(without_kw(cards, keyword@))
        },
    }
}

/// The cards after the edits, applied in order; `None` when one is refused.
pub open spec fn apply_all(cards: Seq<CardView>, edits: Seq<CardEdit>) -> Option<Seq<CardView>>
    decreases edits.len(),
{
    if edits.len() == 0 {
        Some(cards)
    } else {
        match apply_edit(cards, edits[0]) {
            None => None,
            Some(next) => apply_all(next, edits.drop_first()),
        }
    }
}

fn reject_structural(keyword: &str) -> (r: Result<(), FitsError>)
    ensures
        is_structural(keyword@) ==> (r matches Err(FitsError::Processing(m)) && m@ == keyword@
            + " is a structural keyword and cannot be edited"@),
        !is_structural(keyword@) ==> r is Ok,
{
    if is_structural_keyword(keyword) {
        let mut m = string_from(keyword);
        push_str(&mut m, " is a structural keyword and cannot be edited");
        Err(FitsError::Processing(m))
    } else {
        Ok(())
    }
}

/// Inserts `card` just before any run of trailing `COMMENT`/`HISTORY`/blank
/// cards, so added keywords land among the value cards rather than after
/// the file's closing commentary block.
pub fn insert_before_trailing_commentary(cards: &mut Vec<Card>, card: Card)
    ensures
        views(final(cards)@) == views(old(cards)@).insert(trailing_start(views(old(cards)@), old(cards)@.len() as int), card@),
{
    let ghost v = views(cards@);
    let mut at = cards.len();
    while at > 0
        invariant
            at <= cards@.len(),
            v == views(cards@),
            trailing_start(v, cards@.len() as int) == trailing_start(v, at as int),
        ensures
            v == views(cards@),
            trailing_start(v, cards@.len() as int) == at,
            at <= cards@.len(),
        decreases at,
    {
        let k = cards[at - 1].keyword.as_str();
        assert(v[at - 1] == cards@[at - 1]@);
        if str_eq_ic(k, "COMMENT") || str_eq_ic(k, "HISTORY") || k.unicode_len() == 0 {
            at = at - 1;
        } else {
            break;
        }
    }
    cards.insert(at, card);
    assert(views(cards@) =~= v.insert(at as int, card@));
}

/// Applies `edits` in order to a header's cards. Structural keywords
/// (`SIMPLE`, `BITPIX`, `NAXIS`, `NAXISn`, `XTENSION`, `PCOUNT`, `GCOUNT`,
/// `EXTEND`, `END`) may not be edited or removed; a set keyword must be a
/// valid user keyword.
pub fn apply_edits(cards: &[Card], edits: &[CardEdit]) -> (r: Result<Vec<Card>, FitsError>)
    ensures
        match apply_all(views(cards@), edits@) {
            Some(out) => r matches Ok(v) && views(v@) == out,
            None => r matches Err(e) && e is Processing,
        },
{
    let mut cur: Vec<Card> = Vec::new();
    let mut k: usize = 0;
    while k < cards.len()
        invariant
            k <= cards@.len(),
            views(cur@) == views(cards@.subrange(0, k as int)),
        decreases cards.len() - k,
    {
        let ghost before = views(cur@);
        let cc = copy_card(&cards[k]);
        cur.push(cc);
        assert(views(cur@) =~= before.push(cc@));
        assert(views(cards@.subrange(0, k + 1)) =~= views(cards@.subrange(0, k as int)).push(cards@[k as int]@));
        k = k + 1;
    }
    assert(cards@.subrange(0, cards@.len() as int) =~= cards@);
    assert(edits@.subrange(0, edits@.len() as int) =~= edits@);
    let mut i: usize = 0;
    while i < edits.len()
        invariant
            i <= edits@.len(),
            apply_all(views(cards@), edits@) == apply_all(views(cur@), edits@.subrange(i as int, edits@.len() as int)),
        decreases edits.len() - i,
    {
        let ghost rest = edits@.subrange(i as int, edits@.len() as int);
        assert(rest[0] == edits@[i as int]);
        assert(rest.drop_first() =~= edits@.subrange(i + 1, edits@.len() as int));
        let ghost cv = views(cur@);
        match &edits[i] {
            CardEdit::Put { keyword, value, comment } => {
                reject_structural(keyword.as_str())?;
                validate_user_keyword(keyword.as_str())?;
                let new = Card { keyword: string_from(keyword.as_str()), value: crate::header::copy_value(value), comment: match comment {
                    Some(c) => Some(string_from(c.as_str())),
                    None => None,
                } };
                let mut j: usize = 0;
                let mut found = false;
                while j < cur.len()
                    invariant_except_break
                        !found,
                    invariant
                        j <= cur@.len(),
                        cv == views(cur@),
                        crate::header::first_kw(cv, keyword@, 0) == crate::header::first_kw(cv, keyword@, j as int),
                    ensures
                        cv == views(cur@),
                        found ==> j < cur@.len() && crate::header::first_kw(cv, keyword@, 0) == Some(j as int),
                        !found ==> crate::header::first_kw(cv, keyword@, 0) is None,
                    decreases cur.len() - j,
                {
                    assert(cv[j as int] == cur@[j as int]@);
                    if str_eq_ic(cur[j].keyword.as_str(), keyword.as_str()) {
                        found = true;
                        break;
                    }
                    j = j + 1;
                }
                if found {
                    let ghost nv = new@;
                    cur.set(j, new);
                    assert(views(cur@) =~= cv.update(j as int, nv));
                } else {
                    insert_before_trailing_commentary(&mut cur, new);
                }
            },
            CardEdit::Remove { keyword } => {
                reject_structural(keyword.as_str())?;
                let mut kept: Vec<Card> = Vec::new();
                let mut j: usize = 0;
                while j < cur.len()
                    invariant
                        j <= cur@.len(),
                        cv == views(cur@),
                        views(kept@) == without_kw(cv.subrange(0, j as int), keyword@),
                    decreases cur.len() - j,
                {
                    assert(cv.subrange(0, j + 1).drop_last() =~= cv.subrange(0, j as int));
                    assert(cv[j as int] == cur@[j as int]@);
                    if !str_eq_ic(cur[j].keyword.as_str(), keyword.as_str()) {
                        let ghost kb = views(kept@);
                        kept.push(copy_card(&cur[j]));
                        assert(views(kept@) =~= kb.push(cv[j as int]));
                    }
                    j = j + 1;
                }
                assert(cv.subrange(0, cv.len() as int) =~= cv);
                cur = kept;
            },
        }
        i = i + 1;
    }
    Ok(cur)
}

/// The header bytes of a card sequence: each card in fixed format, then
/// `END`, padded to whole blocks.
pub fn header_bytes(cards: &[Card]) -> (r: Result<Vec<u8>, FitsError>)
    ensures
        match serialized_all(views(cards@)) {
            Some(x) => r matches Ok(v) && v@ == assembled(x),
            None => r matches Err(e) && e is Processing,
        },
{
    let mut out: Vec<[u8; 80]> = Vec::new();
    let mut i: usize = 0;
    while i < cards.len()
        invariant
            i <= cards@.len(),
            serialized_all(views(cards@.subrange(0, i as int))) matches Some(x) && card_seqs(out@) == x,
        decreases cards.len() - i,
    {
        let c = &cards[i];
        let cm: Option<&str> = match &c.comment {
            Some(s) => Some(s.as_str()),
            None => None,
        };
        assert(views(cards@.subrange(0, i + 1)).drop_last() =~= views(cards@.subrange(0, i as int)));
        assert(views(cards@.subrange(0, i + 1)).last() == c@);
        let bytes = match serialize_card(c.keyword.as_str(), &c.value, cm) {
            Ok(b) => b,
            Err(e) => {
                proof {
                    lemma_serialized_all_prefix_none(views(cards@), i + 1);
                    assert(views(cards@).subrange(0, i + 1) =~= views(cards@.subrange(0, i + 1)));
                }
                return Err(e);
            },
        };
        let ghost before = card_seqs(out@);
        out.push(bytes);
        assert(card_seqs(out@) =~= before.push(bytes@));
        i = i + 1;
    }
    assert(cards@.subrange(0, cards@.len() as int) =~= cards@);
    Ok(assemble_header(&out))
}


/// The header unit an HDU gets from `edits` (see [`apply_edits`]), and
/// whether it is as long as the unit it replaces, so that it can be written
/// over the old one in place rather than the file being rewritten.
pub fn edited_header(header: &Header, edits: &[CardEdit]) -> (r: Result<(Vec<u8>, bool), FitsError>)
    ensures
        match apply_all(header@, edits@) {
            None => r matches Err(e) && e is Processing,
            Some(out) => match serialized_all(out) {
                Some(x) => r matches Ok((b, same)) && b@ == assembled(x) && same == (assembled(x).len()
                    == header.spec_byte_len()),
                None => r matches Err(e) && e is Processing,
            },
        },
{
    let cards = apply_edits(header.cards(), edits)?;
    let bytes = header_bytes(cards.as_slice())?;
    let same = bytes.len() as u64 == header.byte_len();
    Ok((bytes, same))
}

/// Every header the writer assembles fills a whole number of 2880-byte
/// blocks, and holds its cards, in order, followed by `END`.
pub proof fn lemma_assembled_blocks(cards: Seq<Seq<u8>>)
    ensures
        assembled(cards).len() % 2880 == 0,
        assembled(cards).len() >= flat_cards(cards).len() + 80,
        assembled(cards).subrange(0, flat_cards(cards).len() as int) == flat_cards(cards),
        assembled(cards).subrange(flat_cards(cards).len() as int, flat_cards(cards).len() + 80int) == card_bytes("END"@),
{
    let b = flat_cards(cards) + card_bytes("END"@);
    assert(card_bytes("END"@).len() == 80);
    let rem = b.len() % 2880;
    if rem != 0 {
        assert((b.len() + (2880 - rem)) % 2880 == 0);
    }
    assert(assembled(cards).subrange(0, flat_cards(cards).len() as int) =~= flat_cards(cards));
    assert(assembled(cards).subrange(flat_cards(cards).len() as int, flat_cards(cards).len() + 80int) =~= card_bytes("END"@));
}

} // verus!
