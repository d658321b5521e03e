//! Fingerprints of what a stack is built from: a SHA-256 hex digest of the
//! stack's name, filter, options and (sorted) observation paths, recorded
//! in the project lock to tell when a stack must be rebuilt.

use vstd::prelude::*;
use crate::config::ObservationEntry;
use sha2::Digest;
use crate::card::opt_view;
use crate::config::ProjectLinearStack;
use crate::text::{chars_of, push_char, push_str, string_from};

verus! {

// ---------------------------------------------------------------------------
// Ordering texts
// ---------------------------------------------------------------------------

/// `a` sorts at or before `b`: lexicographic order by code point, a prefix
/// first (the order of `String`s).
pub open spec fn text_le(a: Seq<char>, b: Seq<char>) -> bool
    decreases a.len(),
{
    if a.len() == 0 {
        true
    } else if b.len() == 0 {
        false
    } else if a[0] != b[0] {
        a[0] < b[0]
    } else {
        text_le(a.drop_first(), b.drop_first())
    }
}

/// `s` sorted, by inserting each element before the first one it sorts
/// at or before.
pub open spec fn insert_sorted(s: Seq<Seq<char>>, x: Seq<char>) -> Seq<Seq<char>>
    decreases s.len(),
{
    if s.len() == 0 {
        seq![x]
    } else if text_le(x, s[0]) {
        seq![x] + s
    } else {
        seq![s[0]] + insert_sorted(s.drop_first(), x)
    }
}

pub open spec fn sorted_texts(s: Seq<Seq<char>>) -> Seq<Seq<char>>
    decreases s.len(),
{
    if s.len() == 0 {
        seq![]
    } else {
        insert_sorted(sorted_texts(s.drop_last()), s.last())
    }
}

/// Whether `a` sorts at or before `b`.
fn text_le_exec(a: &Vec<char>, b: &Vec<char>) -> (r: bool)
    ensures
        r == text_le(a@, b@),
{
    let mut i: usize = 0;
    proof {
        assert(a@.subrange(0, a@.len() as int) =~= a@);
        assert(b@.subrange(0, b@.len() as int) =~= b@);
    }
    while i < a.len() && i < b.len() && a[i] == b[i]
        invariant
            i <= a@.len(),
            i <= b@.len(),
            text_le(a@, b@) == text_le(a@.subrange(i as int, a@.len() as int), b@.subrange(i as int, b@.len() as int)),
        decreases a@.len() - i,
    {
        proof {
            let sa = a@.subrange(i as int, a@.len() as int);
            let sb = b@.subrange(i as int, b@.len() as int);
            assert(sa.drop_first() =~= a@.subrange(i + 1, a@.len() as int));
            assert(sb.drop_first() =~= b@.subrange(i + 1, b@.len() as int));
        }
        i = i + 1;
    }
    if i == a.len() {
        true
    } else if i == b.len() {
        false
    } else {
        a[i] < b[i]
    }
}

/// Inserting before the first element `x` sorts at or before.
proof fn lemma_insert_at(s: Seq<Seq<char>>, x: Seq<char>, i: int)
    requires
        0 <= i <= s.len(),
        forall|j: int| 0 <= j < i ==> !text_le(x, #[trigger] s[j]),
        i < s.len() ==> text_le(x, s[i]),
    ensures
        insert_sorted(s, x) == s.subrange(0, i) + seq![x] + s.subrange(i, s.len() as int),
    decreases s.len(),
{
    if s.len() == 0 {
        assert(s.subrange(0, 0) + seq![x] + s.subrange(0, 0) =~= seq![x]);
    } else if i == 0 {
        assert(s.subrange(0, 0) + seq![x] + s.subrange(0, s.len() as int) =~= seq![x] + s);
    } else {
        assert(!text_le(x, s[0]));
        let t = s.drop_first();
        assert forall|j: int| 0 <= j < i - 1 implies !text_le(x, #[trigger] t[j]) by {
            assert(t[j] == s[j + 1]);
        }
        lemma_insert_at(t, x, i - 1);
        assert(seq![s[0]] + (t.subrange(0, i - 1) + seq![x] + t.subrange(i - 1, t.len() as int)) =~= s.subrange(0, i)
            + seq![x] + s.subrange(i, s.len() as int));
    }
}

/// The texts sorted.
fn sort_texts(v: &Vec<String>) -> (r: Vec<String>)
    ensures
        r@.map_values(|t: String| t@) == sorted_texts(v@.map_values(|t: String| t@)),
{
    let ghost vs = v@.map_values(|t: String| t@);
    let mut r: Vec<String> = Vec::new();
    let mut k: usize = 0;
    while k < v.len()
        invariant
            k <= v@.len(),
            vs == v@.map_values(|t: String| t@),
            r@.map_values(|t: String| t@) == sorted_texts(vs.subrange(0, k as int)),
        decreases v@.len() - k,
    {
        let x = string_from(v[k].as_str());
        let xc = chars_of(x.as_str());
        let ghost rs = r@.map_values(|t: String| t@);
        let mut i: usize = 0;
        while i < r.len()
            invariant
                i <= r@.len(),
                rs == r@.map_values(|t: String| t@),
                xc@ == x@,
                forall|j: int| 0 <= j < i ==> !text_le(x@, #[trigger] rs[j]),
            ensures
                i <= r@.len(),
                forall|j: int| 0 <= j < i ==> !text_le(x@, #[trigger] rs[j]),
                i < r@.len() ==> text_le(x@, rs[i as int]),
            decreases r@.len() - i,
        {
            let rc = chars_of(r[i].as_str());
            assert(rs[i as int] == r@[i as int]@);
            if text_le_exec(&xc, &rc) {
                break;
            }
            i = i + 1;
        }
        proof {
            lemma_insert_at(rs, x@, i as int);
            assert(vs.subrange(0, k + 1).drop_last() =~= vs.subrange(0, k as int));
            assert(vs.subrange(0, k + 1).last() == v@[k as int]@);
        }
        r.insert(i, x);
        proof {
            assert(r@.map_values(|t: String| t@) =~= rs.subrange(0, i as int) + seq![x@] + rs.subrange(i as int, rs.len() as int));
        }
        k = k + 1;
    }
    proof {
        assert(vs.subrange(0, v@.len() as int) =~= vs);
    }
    r
}

// ---------------------------------------------------------------------------
// The fingerprint text
// ---------------------------------------------------------------------------

/// The texts joined with `|`.
pub open spec fn join_bar(s: Seq<Seq<char>>) -> Seq<char>
    decreases s.len(),
{
    if s.len() == 0 {
        seq![]
    } else if s.len() == 1 {
        s[0]
    } else {
        join_bar(s.drop_last()) + seq!['|'] + s.last()
    }
}

/// What `{:?}` writes for a string: the text quoted, with quotes,
/// backslashes and unprintable characters escaped.
pub uninterp spec fn debug_text(s: Seq<char>) -> Seq<char>;

/// `{:?}` of a string (std `Debug for str`). What it writes depends on the
/// text alone and is named `debug_text`; nothing more is stated of it.
#[verifier::external_body]
pub(crate) fn debug_str(s: &str) -> (r: String)
    ensures
        r@ == debug_text(s@),
{
    format!("{:?}", s)
}

/// `{:?}` of an optional string: `None`, or `Some(` the quoted text `)`.
pub open spec fn debug_option(f: Option<Seq<char>>) -> Seq<char> {
    match f {
        Some(t) => "Some("@ + debug_text(t) + ")"@,
        None => "None"@,
    }
}

/// The text a linear stack's fingerprint is the digest of:
/// `name|filter|extract_background|paths`, the filter as `{:?}` writes an
/// optional string and the observation paths sorted and joined with `|`.
pub open spec fn linear_stack_input(name: Seq<char>, filter: Option<Seq<char>>, extract_background: bool, paths: Seq<Seq<char>>) -> Seq<char> {
    name + seq!['|'] + debug_option(filter) + seq!['|'] + (if extract_background { "true"@ } else { "false"@ }) + seq!['|']
        + join_bar(sorted_texts(paths))
}

// ---------------------------------------------------------------------------
// The digest
// ---------------------------------------------------------------------------

/// The SHA-256 digest of the UTF-8 bytes of `data`.
pub uninterp spec fn sha256_of_text(data: Seq<char>) -> Seq<u8>;

/// SHA-256 of the UTF-8 bytes of `data` with sha2's `Sha256` (`new`,
/// `update`, `finalize`). The digest depends on the text alone and is
/// named `sha256_of_text`; it is 32 bytes long.
#[verifier::external_body]
fn sha256_text(data: &str) -> (r: Vec<u8>)
    ensures
        r@ == sha256_of_text(data@),
        r@.len() == 32,
{
    let mut h = sha2::Sha256::new();
    h.update(data.as_bytes());
    h.finalize().to_vec()
}

/// The lower-case hex digit of `d < 16`.
pub open spec fn hex_digit(d: int) -> char {
    if d < 10 {
        ((d + 48) as u8) as char
    } else {
        ((d + 87) as u8) as char
    }
}

/// `b` as lower-case hex, two digits per byte.
pub open spec fn hex_lower(b: Seq<u8>) -> Seq<char>
    decreases b.len(),
{
    if b.len() == 0 {
        seq![]
    } else {
        hex_lower(b.drop_last()) + seq![hex_digit(b.last() as int / 16), hex_digit(b.last() as int % 16)]
    }
}

/// A lower-case hex digit: `0`–`9` or `a`–`f`.
pub open spec fn is_lower_hex(c: char) -> bool {
    ('0' <= c && c <= '9') || ('a' <= c && c <= 'f')
}

/// The hex text of `b` is two lower-case hex digits per byte.
pub proof fn lemma_hex_lower(b: Seq<u8>)
    ensures
        hex_lower(b).len() == 2 * b.len(),
        forall|i: int| 0 <= i < hex_lower(b).len() ==> is_lower_hex(#[trigger] hex_lower(b)[i]),
    decreases b.len(),
{
    if b.len() > 0 {
        lemma_hex_lower(b.drop_last());
        let x = b.last();
        lemma_hex_digit(x as int / 16);
        lemma_hex_digit(x as int % 16);
        let h = hex_lower(b);
        let p = hex_lower(b.drop_last());
        assert forall|i: int| 0 <= i < h.len() implies is_lower_hex(#[trigger] h[i]) by {
            if i < p.len() {
                assert(h[i] == p[i]);
            }
        }
    }
}

proof fn lemma_hex_digit(d: int)
    requires
        0 <= d < 16,
    ensures
        is_lower_hex(hex_digit(d)),
{
    if d < 10 {
        let x: u8 = (d + 48) as u8;
        assert((x as char) as u32 == x as u32);
        assert('0' as u32 == 48);
        assert('9' as u32 == 57);
    } else {
        let x: u8 = (d + 87) as u8;
        assert((x as char) as u32 == x as u32);
        assert('a' as u32 == 97);
        assert('f' as u32 == 102);
    }
}

fn hex_digit_exec(d: u8) -> (c: char)
    requires
        d < 16,
    ensures
        c == hex_digit(d as int),
{
    if d < 10 {
        (d + 48) as char
    } else {
        (d + 87) as char
    }
}

fn to_hex(b: &Vec<u8>) -> (s: String)
    ensures
        s@ == hex_lower(b@),
{
    let mut s = String::new();
    let mut i: usize = 0;
    while i < b.len()
        invariant
            i <= b@.len(),
            s@ == hex_lower(b@.subrange(0, i as int)),
        decreases b@.len() - i,
    {
        let x = b[i];
        push_char(&mut s, hex_digit_exec(x / 16));
        push_char(&mut s, hex_digit_exec(x % 16));
        proof {
            assert(b@.subrange(0, i + 1).drop_last() =~= b@.subrange(0, i as int));
            assert(b@.subrange(0, i + 1).last() == x);
        }
        i = i + 1;
    }
    proof {
        assert(b@.subrange(0, b@.len() as int) =~= b@);
    }
    s
}

/// The fingerprint of a linear stack given its observation paths as text:
/// the lower-case hex SHA-256 of [`linear_stack_input`].
pub fn stack_fingerprint(name: &str, filter: &Option<String>, extract_background: bool, paths: &Vec<String>) -> (s: String)
    ensures
        s@ == hex_lower(
            sha256_of_text(
                linear_stack_input(
                    name@,
                    opt_view(*filter),
                    extract_background,
                    paths@.map_values(|t: String| t@),
                ),
            ),
        ),
        s@.len() == 64,
        forall|i: int| 0 <= i < s@.len() ==> is_lower_hex(#[trigger] s@[i]),
{
    let sorted = sort_texts(paths);
    let ghost ss = sorted@.map_values(|t: String| t@);
    let mut input = string_from(name);
    push_char(&mut input, '|');
    match filter {
        Some(f) => {
            push_str(&mut input, "Some(");
            let d = debug_str(f.as_str());
            push_str(&mut input, d.as_str());
            push_str(&mut input, ")");
        },
        None => {
            push_str(&mut input, "None");
        },
    }
    push_char(&mut input, '|');
    if extract_background {
        push_str(&mut input, "true");
    } else {
        push_str(&mut input, "false");
    }
    push_char(&mut input, '|');
    let ghost head = input@;
    proof {
        reveal_strlit("Some(");
        reveal_strlit(")");
        reveal_strlit("None");
        reveal_strlit("true");
        reveal_strlit("false");
        assert(head =~= name@ + seq!['|'] + debug_option(opt_view(*filter)) + seq!['|'] + (if extract_background {
            "true"@
        } else {
            "false"@
        }) + seq!['|']);
    }
    let mut k: usize = 0;
    while k < sorted.len()
        invariant
            k <= sorted@.len(),
            ss == sorted@.map_values(|t: String| t@),
            input@ == head + join_bar(ss.subrange(0, k as int)),
        decreases sorted@.len() - k,
    {
        if k > 0 {
            push_char(&mut input, '|');
        }
        push_str(&mut input, sorted[k].as_str());
        proof {
            let p = ss.subrange(0, k + 1);
            assert(p.drop_last() =~= ss.subrange(0, k as int));
            assert(p.last() == sorted@[k as int]@);
            if k == 0 {
                assert(p.len() == 1);
            }
        }
        k = k + 1;
    }
    proof {
        assert(ss.subrange(0, sorted@.len() as int) =~= ss);
    }
    let digest = sha256_text(input.as_str());
    proof {
        lemma_hex_lower(digest@);
    }
    to_hex(&digest)
}

/// The texts of a stack's observation paths, in order.
pub open spec fn observation_texts(obs: Seq<ObservationEntry>) -> Seq<Seq<char>> {
    obs.map_values(|o: ObservationEntry| o.path@)
}

/// Produces a deterministic SHA-256 hex fingerprint for a linear stack:
/// the digest of its name, filter, background option and observation
/// paths (sorted), as [`stack_fingerprint`] computes it; 64 lower-case hex
/// digits.
pub fn hash_linear_stack(stack: &ProjectLinearStack) -> (s: String)
    ensures
        s@ == hex_lower(
            sha256_of_text(
                linear_stack_input(
                    stack.name@,
                    opt_view(stack.filter),
                    stack.extract_background,
                    observation_texts(stack.observations@),
                ),
            ),
        ),
        s@.len() == 64,
        forall|i: int| 0 <= i < s@.len() ==> is_lower_hex(#[trigger] s@[i]),
{
    let mut paths: Vec<String> = Vec::new();
    let mut k: usize = 0;
    while k < stack.observations.len()
        invariant
            k <= stack.observations@.len(),
            paths@.len() == k,
            forall|j: int| 0 <= j < k ==> #[trigger] paths@[j]@ == stack.observations@[j].path@,
        decreases stack.observations@.len() - k,
    {
        paths.push(string_from(stack.observations[k].path.as_str()));
        k = k + 1;
    }
    proof {
        assert(paths@.map_values(|t: String| t@) =~= observation_texts(stack.observations@));
    }
    stack_fingerprint(stack.name.as_str(), &stack.filter, stack.extract_background, &paths)
}

} // verus!
