//! FITS headers: reading the card sequence for one HDU from a
//! [`ByteSource`] and exposing typed keyword access (FITS Standard 4.0 §4
//! "Header").
//!
//! Reading touches only the header's own blocks — it stops at the first
//! `END` card and never looks at the data unit that follows.

use vstd::prelude::*;
use crate::block::{BLOCK_SIZE, CARD_SIZE, CARDS_PER_BLOCK};
use crate::card::{Card, CardView, Value, ValueView, card_of, latin1, opt_view};
use crate::error::{FitsError, IoError};
use crate::source::ByteSource;
use crate::text::{chars_of, dec, eq_ic, push_u64, string_from};

verus! {

/// The pixel data type declared by `BITPIX` (FITS Standard 4.0 §4.4.1.1).
/// Only the six standard values are valid; anything else is
/// [`FitsError::InvalidBitpix`].
#[derive(Debug, Clone, Copy, PartialEq, Eq, Structural)]
pub enum BitPix {
    U8,
    I16,
    I32,
    I64,
    F32,
    F64,
}

/// The variant a raw `BITPIX` value declares.
pub open spec fn bitpix_of(v: int) -> Option<BitPix> {
    if v == 8 {
        Some(BitPix::U8)
    } else if v == 16 {
        Some(BitPix::I16)
    } else if v == 32 {
        Some(BitPix::I32)
    } else if v == 64 {
        Some(BitPix::I64)
    } else if v == -32 {
        Some(BitPix::F32)
    } else if v == -64 {
        Some(BitPix::F64)
    } else {
        None
    }
}

/// The raw `BITPIX` value of a variant.
pub open spec fn bitpix_value(b: BitPix) -> int {
    match b {
        BitPix::U8 => 8,
        BitPix::I16 => 16,
        BitPix::I32 => 32,
        BitPix::I64 => 64,
        BitPix::F32 => -32,
        BitPix::F64 => -64,
    }
}

impl BitPix {
    pub fn from_i64(value: i64) -> (r: Result<BitPix, FitsError>)
        ensures
            match bitpix_of(value as int) {
                Some(b) => r == Ok::<BitPix, FitsError>(b),
                None => r == Err::<BitPix, FitsError>(FitsError::InvalidBitpix(value)),
            },
    {
        if value == 8 {
            Ok(BitPix::U8)
        } else if value == 16 {
            Ok(BitPix::I16)
        } else if value == 32 {
            Ok(BitPix::I32)
        } else if value == 64 {
            Ok(BitPix::I64)
        } else if value == -32 {
            Ok(BitPix::F32)
        } else if value == -64 {
            Ok(BitPix::F64)
        } else {
            Err(FitsError::InvalidBitpix(value))
        }
    }

    /// The raw `BITPIX` value this variant corresponds to.
    pub fn as_i64(&self) -> (v: i64)
        ensures
            v == bitpix_value(*self),
    {
        match self {
            BitPix::U8 => 8,
            BitPix::I16 => 16,
            BitPix::I32 => 32,
            BitPix::I64 => 64,
            BitPix::F32 => -32,
            BitPix::F64 => -64,
        }
    }

    pub fn bytes_per_pixel(&self) -> (n: usize)
        ensures
            n == (if bitpix_value(*self) < 0 { -bitpix_value(*self) } else { bitpix_value(*self) }) / 8,
    {
        match self {
            BitPix::U8 => 1,
            BitPix::I16 => 2,
            BitPix::I32 | BitPix::F32 => 4,
            BitPix::I64 | BitPix::F64 => 8,
        }
    }
}

/// `BITPIX` values and variants correspond one to one: a variant's value
/// reads back as the same variant, and a value that names a variant is
/// that variant's value.
pub proof fn lemma_bitpix_roundtrip(b: BitPix, v: int)
    ensures
        bitpix_of(bitpix_value(b)) == Some(b),
        bitpix_of(v) == Some(b) ==> bitpix_value(b) == v,
{
}

// ---------------------------------------------------------------------------
// The header unit, as spec functions over the source bytes
// ---------------------------------------------------------------------------

/// Card `j` of block `blk` of the header starting at byte `off`.
pub open spec fn block_card(b: Seq<u8>, off: int, blk: int, j: int) -> CardView {
    let start = off + 2880 * blk + 80 * j;
    card_of(latin1(b.subrange(start, start + 80)))
}

pub open spec fn is_end_card(c: CardView) -> bool {
    eq_ic(c.0, "END"@)
}

/// The first `END` card of block `blk` at or after card `j`.
pub open spec fn end_in_block(b: Seq<u8>, off: int, blk: int, j: int) -> Option<int>
    decreases 36 - j,
{
    if j < 0 || j >= 36 {
        None
    } else if is_end_card(block_card(b, off, blk, j)) {
        Some(j)
    } else {
        end_in_block(b, off, blk, j + 1)
    }
}

/// Block and card index of the first `END` card, scanning whole blocks
/// from block `blk`; `None` when the source runs out of whole blocks first.
pub open spec fn end_position(b: Seq<u8>, off: int, blk: int) -> Option<(int, int)>
    decreases b.len() - off - 2880 * blk,
{
    if off < 0 || blk < 0 || off + 2880 * (blk + 1) > b.len() {
        None
    } else {
        match end_in_block(b, off, blk, 0) {
            Some(j) => Some((blk, j)),
            None => end_position(b, off, blk + 1),
        }
    }
}

/// The cards of blocks `0..blk`, then the first `j` cards of block `blk`.
pub open spec fn cards_upto(b: Seq<u8>, off: int, blk: int, j: int) -> Seq<CardView>
    decreases blk, j,
{
    if blk <= 0 && j <= 0 {
        seq![]
    } else if j <= 0 {
        cards_upto(b, off, blk - 1, 36)
    } else {
        cards_upto(b, off, blk, j - 1).push(block_card(b, off, blk, j - 1))
    }
}

// ---------------------------------------------------------------------------
// CONTINUE chains
// ---------------------------------------------------------------------------

pub open spec fn ends_amp(s: Seq<char>) -> bool {
    s.len() > 0 && s.last() == '&'
}

/// Absorbs the `CONTINUE` cards from index `j` into `acc`; returns the
/// merged text and the index of the first card not absorbed.
pub open spec fn absorb(raw: Seq<CardView>, j: int, acc: Seq<char>) -> (Seq<char>, int)
    decreases raw.len() - j,
{
    if 0 <= j < raw.len() && eq_ic(raw[j].0, "CONTINUE"@) {
        match raw[j].1 {
            ValueView::String(s) => if ends_amp(s) {
                absorb(raw, j + 1, acc + s.drop_last())
            } else {
                (acc + s, j + 1)
            },
            _ => (acc, j + 1),
        }
    } else {
        (acc, j)
    }
}

/// The cards from index `i` on with every `&`-terminated string merged
/// with the `CONTINUE` cards that follow it.
pub open spec fn merge_from(raw: Seq<CardView>, i: int) -> Seq<CardView>
    decreases raw.len() - i,
{
    if i < 0 || i >= raw.len() {
        seq![]
    } else {
        let c = raw[i];
        if c.1 is String && ends_amp(c.1->String_0) {
            let (merged, j) = absorb(raw, i + 1, c.1->String_0.drop_last());
            if i < j <= raw.len() {
                seq![(c.0, ValueView::String(merged), c.2)] + merge_from(raw, j)
            } else {
                seq![]
            }
        } else {
            seq![c] + merge_from(raw, i + 1)
        }
    }
}

pub proof fn lemma_absorb_progress(raw: Seq<CardView>, j: int, acc: Seq<char>)
    requires
        0 <= j,
    ensures
        j <= absorb(raw, j, acc).1,
        absorb(raw, j, acc).1 <= if j <= raw.len() { raw.len() as int } else { j },
    decreases raw.len() - j,
{
    if 0 <= j < raw.len() && eq_ic(raw[j].0, "CONTINUE"@) {
        match raw[j].1 {
            ValueView::String(s) => if ends_amp(s) {
                lemma_absorb_progress(raw, j + 1, acc + s.drop_last());
            },
            _ => {},
        }
    }
}

/// The views of a card sequence.
pub open spec fn views(cs: Seq<Card>) -> Seq<CardView> {
    cs.map_values(|c: Card| c@)
}

/// Index of the first card whose keyword matches `key` ignoring ASCII case.
pub open spec fn first_kw(cards: Seq<CardView>, key: Seq<char>, i: int) -> Option<int>
    decreases cards.len() - i,
{
    if i < 0 || i >= cards.len() {
        None
    } else if eq_ic(cards[i].0, key) {
        Some(i)
    } else {
        first_kw(cards, key, i + 1)
    }
}

/// The card a keyword lookup finds.
pub open spec fn lookup(cards: Seq<CardView>, key: Seq<char>) -> Option<CardView> {
    match first_kw(cards, key, 0) {
        Some(i) => Some(cards[i]),
        None => None,
    }
}

pub open spec fn lookup_i64(cards: Seq<CardView>, key: Seq<char>) -> Option<i64> {
    match lookup(cards, key) {
        Some(c) => match c.1 {
            ValueView::Integer(i) => Some(i),
            _ => None,
        },
        None => None,
    }
}

// ---------------------------------------------------------------------------
// Exec
// ---------------------------------------------------------------------------

fn copy_string(s: &String) -> (r: String)
    ensures
        r@ == s@,
{
    s.clone()
}

pub(crate) fn copy_value(v: &Value) -> (r: Value)
    ensures
        r@ == v@,
{
    match v {
        Value::Logical(b) => Value::Logical(*b),
        Value::Integer(i) => Value::Integer(*i),
        Value::Float(t) => Value::Float(copy_string(t)),
        Value::String(s) => Value::String(copy_string(s)),
        Value::Complex(re, im) => Value::Complex(copy_string(re), copy_string(im)),
        Value::Undefined => Value::Undefined,
        Value::Commentary(t) => Value::Commentary(copy_string(t)),
        Value::Invalid(t) => Value::Invalid(copy_string(t)),
    }
}

fn copy_comment(c: &Option<String>) -> (r: Option<String>)
    ensures
        opt_view(r) == opt_view(*c),
{
    match c {
        Some(s) => Some(copy_string(s)),
        None => None,
    }
}

/// A copy of a card with the same view.
pub fn copy_card(c: &Card) -> (r: Card)
    ensures
        r@ == c@,
{
    Card { keyword: copy_string(&c.keyword), value: copy_value(&c.value), comment: copy_comment(&c.comment) }
}

/// `s` without its last character when that is `&`.
fn strip_amp(s: &String) -> (r: Option<String>)
    ensures
        ends_amp(s@) ==> (r matches Some(t) && t@ == s@.drop_last()),
        !ends_amp(s@) ==> r is None,
{
    let cs = chars_of(s.as_str());
    if cs.len() > 0 && cs[cs.len() - 1] == '&' {
        let mut t = String::new();
        let mut i: usize = 0;
        while i < cs.len() - 1
            invariant
                cs@ == s@,
                cs@.len() > 0,
                i <= cs@.len() - 1,
                t@ == cs@.subrange(0, i as int),
            decreases cs.len() - 1 - i,
        {
            crate::text::push_char(&mut t, cs[i]);
            i = i + 1;
            assert(t@ =~= cs@.subrange(0, i as int));
        }
        assert(t@ =~= s@.drop_last());
        Some(t)
    } else {
        None
    }
}

/// Merges `CONTINUE` chains (OGIP long-string convention) into the
/// initiating card: a string value ending in `&` is continued by the next
/// `CONTINUE` card's string value, itself possibly `&`-terminated, and so
/// on. The trailing `&` markers are stripped from the merged result.
pub fn merge_continuations(raw: &Vec<Card>) -> (out: Vec<Card>)
    ensures
        views(out@) == merge_from(views(raw@), 0),
{
    let ghost rv = views(raw@);
    let mut out: Vec<Card> = Vec::new();
    let mut i: usize = 0;
    while i < raw.len()
        invariant
            rv == views(raw@),
            i <= raw@.len(),
            views(out@) + merge_from(rv, i as int) == merge_from(rv, 0),
        decreases raw.len() - i,
    {
        let card = &raw[i];
        assert(rv[i as int] == card@);
        let stripped = match &card.value {
            Value::String(s) => strip_amp(s),
            _ => None,
        };
        match stripped {
            Some(first) => {
                let mut merged = first;
                let mut j = i + 1;
                let mut still_continuing = true;
                proof {
                    lemma_absorb_progress(rv, i + 1, merged@);
                }
                while still_continuing
                    invariant
                        rv == views(raw@),
                        i < j <= raw@.len(),
                        still_continuing ==> absorb(rv, i + 1, card.value@->String_0.drop_last())
                            == absorb(rv, j as int, merged@),
                        !still_continuing ==> absorb(rv, i + 1, card.value@->String_0.drop_last())
                            == (merged@, j as int),
                    decreases raw.len() - j, if still_continuing { 1int } else { 0int },
                {
                    still_continuing = false;
                    if j < raw.len() && crate::text::str_eq_ic(raw[j].keyword.as_str(), "CONTINUE") {
                        let next = &raw[j];
                        assert(rv[j as int] == next@);
                        j = j + 1;
                        match &next.value {
                            Value::String(next_s) => {
                                match strip_amp(next_s) {
                                    Some(chunk) => {
                                        merged.append(chunk.as_str());
                                        still_continuing = true;
                                    },
                                    None => {
                                        merged.append(next_s.as_str());
                                    },
                                }
                            },
                            _ => {},
                        }
                    }
                }
                let ghost oldv = views(out@);
                out.push(Card { keyword: copy_string(&card.keyword), value: Value::String(merged), comment: copy_comment(&card.comment) });
                proof {
                    assert(views(out@) =~= oldv.push(out@.last()@));
                    assert(views(out@) + merge_from(rv, j as int) =~= oldv + merge_from(rv, i as int));
                }
                i = j;
            },
            None => {
                let ghost oldv = views(out@);
                out.push(copy_card(card));
                proof {
                    assert(views(out@) =~= oldv.push(card@));
                    assert(views(out@) + merge_from(rv, i + 1) =~= oldv + merge_from(rv, i as int));
                }
                i = i + 1;
            },
        }
    }
    assert(views(out@) + seq![] =~= views(out@));
    out
}

/// One HDU's header: an ordered card sequence with `CONTINUE` long-string
/// chains already merged into a single logical card. Keyword lookup finds
/// the first card with a matching keyword (ignoring ASCII case), matching
/// common FITS reader behaviour when a keyword is (against the standard's
/// intent, but not uncommon in practice) repeated.
#[derive(Debug, Clone)]
pub struct Header {
    cards: Vec<Card>,
    /// Total size in bytes of the header unit on disk, including the block
    /// containing `END` and any trailing pad — always a multiple of
    /// [`BLOCK_SIZE`].
    byte_len: u64,
}

impl View for Header {
    type V = Seq<CardView>;

    closed spec fn view(&self) -> Seq<CardView> {
        views(self.cards@)
    }
}

impl Header {
    pub closed spec fn spec_byte_len(&self) -> int {
        self.byte_len as int
    }

    /// A header holding `cards` as given (no `CONTINUE` merging), whose
    /// unit occupies `byte_len` bytes.
    pub fn from_cards(cards: Vec<Card>, byte_len: u64) -> (h: Header)
        ensures
            h@ == views(cards@),
            h.spec_byte_len() == byte_len,
    {
        Header { cards, byte_len }
    }

    /// Reads a header starting at `offset` in `source`, stopping at the
    /// first `END` card. Returns [`FitsError::MissingEnd`] if the source is
    /// exhausted first.
    pub fn read<S: ByteSource + ?Sized>(source: &S, offset: u64) -> (r: Result<Header, FitsError>)
        ensures
            r matches Ok(h) ==> (end_position(source.bytes(), offset as int, 0) matches Some((blk, j))
                && h@ == merge_from(cards_upto(source.bytes(), offset as int, blk, j), 0)
                && h.spec_byte_len() == 2880 * (blk + 1)),
            end_position(source.bytes(), offset as int, 0) is None ==> r is Err,
            r matches Err(e) ==> e is MissingEnd || e is Io,
            r == Err::<Header, FitsError>(FitsError::MissingEnd) ==> end_position(source.bytes(), offset as int, 0)
                is None,
    {
        let ghost b = source.bytes();
        let total = source.len();
        let mut raw_cards: Vec<Card> = Vec::new();
        let mut blocks_read: u64 = 0;
        let mut block_buf: Vec<u8> = vec![0u8; BLOCK_SIZE];
        loop
            invariant
                b == source.bytes(),
                b.len() == total,
                block_buf@.len() == 2880,
                views(raw_cards@) == cards_upto(b, offset as int, blocks_read as int, 0),
                end_position(b, offset as int, 0) == end_position(b, offset as int, blocks_read as int),
                offset + 2880 * blocks_read <= b.len() || blocks_read == 0,
            decreases b.len() - offset - 2880 * blocks_read,
        {
            proof {
                if end_position(b, offset as int, blocks_read as int) is Some {
                    assert(offset + 2880 * (blocks_read + 1) <= b.len());
                }
            }
            let block_offset = match blocks_read.checked_mul(2880) {
                Some(x) => match offset.checked_add(x) {
                    Some(y) => y,
                    None => {
                        return Err(FitsError::MissingEnd);
                    },
                },
                None => {
                    return Err(FitsError::MissingEnd);
                },
            };
            match source.read_exact_at(block_buf.as_mut_slice(), block_offset) {
                Ok(()) => {},
                Err(e) => {
                    return match e {
                        IoError::UnexpectedEof => Err(FitsError::MissingEnd),
                        other => Err(FitsError::Io(other)),
                    };
                },
            }
            let ghost blk = blocks_read as int;
            assert(block_buf@ == b.subrange(block_offset as int, block_offset + 2880));
            let mut i: usize = 0;
            while i < CARDS_PER_BLOCK
                invariant
                    b == source.bytes(),
                    b.len() == total,
                    block_buf@ == b.subrange(offset + 2880 * blk, offset + 2880 * blk + 2880),
                    offset + 2880 * blk + 2880 <= b.len(),
                    blk == blocks_read,
                    i <= 36,
                    views(raw_cards@) == cards_upto(b, offset as int, blk, i as int),
                    end_in_block(b, offset as int, blk, 0) == end_in_block(b, offset as int, blk, i as int),
                    end_position(b, offset as int, 0) == end_position(b, offset as int, blk),
                decreases 36 - i,
            {
                let start = i * CARD_SIZE;
                let mut card_bytes: [u8; 80] = [0u8; 80];
                let mut k: usize = 0;
                while k < 80
                    invariant
                        k <= 80,
                        start == 80 * i,
                        i < 36,
                        block_buf@.len() == 2880,
                        card_bytes@.len() == 80,
                        forall|q: int| 0 <= q < k ==> card_bytes@[q] == block_buf@[start + q],
                    decreases 80 - k,
                {
                    card_bytes[k] = block_buf[start + k];
                    k = k + 1;
                }
                proof {
                    let st = offset + 2880 * blk + 80 * i;
                    assert(card_bytes@ =~= b.subrange(st, st + 80));
                }
                let card = Card::parse(&card_bytes);
                assert(card@ == block_card(b, offset as int, blk, i as int));
                if crate::text::str_eq_ic(card.keyword.as_str(), "END") {
                    proof {
                        assert(end_in_block(b, offset as int, blk, i as int) == Some(i as int));
                        assert(end_position(b, offset as int, blk) == Some((blk, i as int)));
                    }
                    let cards = merge_continuations(&raw_cards);
                    return Ok(Header { cards, byte_len: (blocks_read + 1) * 2880 });
                }
                let ghost before = views(raw_cards@);
                raw_cards.push(card);
                assert(views(raw_cards@) =~= before.push(block_card(b, offset as int, blk, i as int)));
                i = i + 1;
            }
            proof {
                assert(end_in_block(b, offset as int, blk, 0) is None);
                assert(cards_upto(b, offset as int, blk + 1, 0) == cards_upto(b, offset as int, blk, 36));
            }
            blocks_read = blocks_read + 1;
        }
    }

    /// Total size in bytes of this header unit on disk (a multiple of
    /// [`BLOCK_SIZE`]).
    pub fn byte_len(&self) -> (n: u64)
        ensures
            n == self.spec_byte_len(),
    {
        self.byte_len
    }

    /// All cards in file order, `CONTINUE` chains already merged.
    pub fn cards(&self) -> (cs: &[Card])
        ensures
            views(cs@) == self@,
    {
        self.cards.as_slice()
    }

    /// The first card whose keyword matches `keyword`, ignoring ASCII case.
    pub fn get(&self, keyword: &str) -> (r: Option<&Card>)
        ensures
            match lookup(self@, keyword@) {
                Some(c) => r matches Some(x) && x@ == c,
                None => r is None,
            },
    {
        let ghost v = self@;
        let mut i: usize = 0;
        while i < self.cards.len()
            invariant
                v == views(self.cards@),
                i <= self.cards@.len(),
                first_kw(v, keyword@, 0) == first_kw(v, keyword@, i as int),
            decreases self.cards.len() - i,
        {
            assert(v[i as int] == self.cards@[i as int]@);
            if crate::text::str_eq_ic(self.cards[i].keyword.as_str(), keyword) {
                return Some(&self.cards[i]);
            }
            i = i + 1;
        }
        None
    }

    pub fn get_string(&self, keyword: &str) -> (r: Option<&str>)
        ensures
            match lookup(self@, keyword@) {
                Some(c) => match c.1 {
                    ValueView::String(s) => r matches Some(x) && x@ == s,
                    _ => r is None,
                },
                None => r is None,
            },
    {
        match self.get(keyword) {
            Some(card) => match &card.value {
                Value::String(s) => Some(s.as_str()),
                _ => None,
            },
            None => None,
        }
    }

    pub fn get_i64(&self, keyword: &str) -> (r: Option<i64>)
        ensures
            r == lookup_i64(self@, keyword@),
    {
        match self.get(keyword) {
            Some(card) => match &card.value {
                Value::Integer(i) => Some(*i),
                _ => None,
            },
            None => None,
        }
    }

    pub fn get_bool(&self, keyword: &str) -> (r: Option<bool>)
        ensures
            match lookup(self@, keyword@) {
                Some(c) => match c.1 {
                    ValueView::Logical(b) => r == Some(b),
                    _ => r is None,
                },
                None => r is None,
            },
    {
        match self.get(keyword) {
            Some(card) => match &card.value {
                Value::Logical(b) => Some(*b),
                _ => None,
            },
            None => None,
        }
    }
}


/// The value of `NAXISi`, zero when absent or not an integer.
pub open spec fn axis_value(h: Seq<CardView>, i: int) -> int {
    match lookup_i64(h, "NAXIS"@ + dec(i as nat)) {
        Some(v) => v as int,
        None => 0,
    }
}

/// The declared number of axes: `NAXIS`, or zero when it is absent, not an
/// integer, or out of `usize` range.
pub open spec fn naxis_count(h: Seq<CardView>) -> int {
    match lookup_i64(h, "NAXIS"@) {
        Some(v) => if 0 <= v <= usize::MAX { v as int } else { 0 },
        None => 0,
    }
}

/// Axis lengths `NAXISi..NAXIS{count}`, failing on the first negative
/// length, or once the running product of the lengths (a zero length
/// counted as one) exceeds `u64`.
pub open spec fn naxis_scan(h: Seq<CardView>, count: int, i: int, total: int) -> Result<Seq<u64>, FitsError>
    decreases count + 1 - i,
{
    if i > count || i < 1 {
        Ok(seq![])
    } else {
        let v = axis_value(h, i);
        if v < 0 {
            Err(FitsError::NegativeNaxis { axis: i as usize, value: v as i64 })
        } else {
            let t = total * (if v > 1 { v } else { 1 });
            if t > u64::MAX {
                Err(FitsError::NaxisOverflow)
            } else {
                match naxis_scan(h, count, i + 1, t) {
                    Ok(rest) => Ok(seq![v as u64] + rest),
                    Err(e) => Err(e),
                }
            }
        }
    }
}

impl Header {
    /// The declared `BITPIX`, validated against the six standard values.
    pub fn bitpix(&self) -> (r: Result<BitPix, FitsError>)
        ensures
            match lookup_i64(self@, "BITPIX"@) {
                None => r == Err::<BitPix, FitsError>(FitsError::MissingPrimaryHdu),
                Some(v) => match bitpix_of(v as int) {
                    Some(b) => r == Ok::<BitPix, FitsError>(b),
                    None => r == Err::<BitPix, FitsError>(FitsError::InvalidBitpix(v)),
                },
            },
    {
        match self.get_i64("BITPIX") {
            None => Err(FitsError::MissingPrimaryHdu),
            Some(raw) => BitPix::from_i64(raw),
        }
    }

    /// The declared axis lengths (`NAXIS1..NAXISn`), fastest-varying axis
    /// first, per `NAXIS`. Validates that every `NAXISn` is non-negative
    /// (FITS Standard 4.0 §4.4.1.2) and that their product does not
    /// overflow `u64`, catching implausible declared dimensions before
    /// anything downstream tries to size a buffer from them.
    pub fn naxis(&self) -> (r: Result<Vec<u64>, FitsError>)
        ensures
            match naxis_scan(self@, naxis_count(self@), 1, 1) {
                Ok(axes) => r matches Ok(a) && a@ == axes,
                Err(e) => r matches Err(x) && x == e,
            },
    {
        let ghost h = self@;
        let count: usize = match self.get_i64("NAXIS") {
            Some(v) => if v >= 0 && (v as u64) <= (usize::MAX as u64) { v as usize } else { 0 },
            None => 0,
        };
        assert(count == naxis_count(h));
        let mut axes: Vec<u64> = Vec::new();
        let mut total: u64 = 1;
        let mut k: usize = 0;
        while k < count
            invariant
                h == self@,
                count == naxis_count(h),
                k <= count,
                total >= 1,
                naxis_scan(h, count as int, 1, 1) == match naxis_scan(h, count as int, k + 1, total as int) {
                    Ok(rest) => Ok(axes@ + rest),
                    Err(e) => Err(e),
                },
            decreases count - k,
        {
            let i = k + 1;
            let mut key = string_from("NAXIS");
            push_u64(&mut key, i as u64);
            let value: i64 = match self.get_i64(key.as_str()) {
                Some(v) => v,
                None => 0,
            };
            assert(value == axis_value(h, i as int));
            if value < 0 {
                return Err(FitsError::NegativeNaxis { axis: i, value });
            }
            let factor: u64 = if value > 1 { value as u64 } else { 1 };
            let next = match total.checked_mul(factor) {
                Some(t) => {
                    assert(t >= 1) by (nonlinear_arith)
                        requires t == total * factor, total >= 1, factor >= 1;
                    t
                },
                None => {
                    return Err(FitsError::NaxisOverflow);
                },
            };
            let ghost before = axes@;
            axes.push(value as u64);
            proof {
                match naxis_scan(h, count as int, i + 1, next as int) {
                    Ok(rest) => {
                        assert(before + (seq![value as u64] + rest) =~= axes@ + rest);
                    },
                    Err(e) => {},
                }
            }
            total = next;
            k = i;
        }
        assert(axes@ + seq![] =~= axes@);
        Ok(axes)
    }
}

} // verus!
