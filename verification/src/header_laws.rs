//! What a header written by the library reads back as: the header unit
//! [`crate::writer::header_bytes`] assembles from writable cards holds its
//! `END` card right after them, and the cards [`crate::header::Header::read`]
//! collects before it, with `CONTINUE` chains merged, are the cards written.

use vstd::prelude::*;
use crate::card::{CardView, ValueView, card_bytes, card_of, latin1};
use crate::card_laws::{
    lemma_plain_kw, lemma_printable_line, lemma_written_card_roundtrip, plain_comment, plain_keyword, printable, spaces,
    writable_value,
};
use crate::header::{block_card, cards_upto, end_in_block, end_position, ends_amp, is_end_card, merge_from};
use crate::text::{eq_ic, trim_end, lemma_trim_end_len_unique, is_ws};
use crate::writer::{CardEdit, apply_all, assembled, flat_cards, lemma_assembled_blocks, serialized_all, serialized_card};

verus! {

/// A card the writer writes and the reader gives back unchanged: a plain
/// keyword, a writable value and a short comment, and no string ending in
/// `&` (which the reader would take for a `CONTINUE` chain).
pub open spec fn writable_card(c: CardView) -> bool {
    &&& plain_keyword(c.0)
    &&& writable_value(c.1)
    &&& plain_comment(c.2)
    &&& !(c.1 is String && ends_amp(c.1->String_0))
}

/// Serializing writable cards succeeds, one 80-byte image per card.
proof fn lemma_serialized_all(cards: Seq<CardView>)
    requires
        forall|i: int| 0 <= i < cards.len() ==> writable_card(#[trigger] cards[i]),
    ensures
        serialized_all(cards) matches Some(x) && x.len() == cards.len() && forall|i: int|
            0 <= i < cards.len() ==> #[trigger] x[i].len() == 80 && card_of(latin1(x[i])) == cards[i],
    decreases cards.len(),
{
    if cards.len() > 0 {
        let d = cards.drop_last();
        assert forall|i: int| 0 <= i < d.len() implies writable_card(#[trigger] d[i]) by {
            assert(d[i] == cards[i]);
        }
        lemma_serialized_all(d);
        let c = cards.last();
        assert(writable_card(cards[cards.len() - 1]));
        lemma_written_card_roundtrip(c.0, c.1, c.2);
        let p = serialized_all(d)->Some_0;
        let b = serialized_card(c.0, c.1, c.2)->Some_0;
        assert forall|i: int| 0 <= i < cards.len() implies #[trigger] p.push(b)[i].len() == 80 && card_of(
            latin1(p.push(b)[i]),
        ) == cards[i] by {
            if i < d.len() {
                assert(p.push(b)[i] == p[i]);
                assert(d[i] == cards[i]);
            }
        }
    }
}

/// The image of card `k` lies at byte `80 k` of the flattened cards.
proof fn lemma_flat_at(x: Seq<Seq<u8>>, k: int)
    requires
        forall|i: int| 0 <= i < x.len() ==> #[trigger] x[i].len() == 80,
        0 <= k < x.len(),
    ensures
        flat_cards(x).len() == 80 * x.len(),
        flat_cards(x).subrange(80 * k, 80 * k + 80) == x[k],
    decreases x.len(),
{
    lemma_flat_len(x);
    let d = x.drop_last();
    assert forall|i: int| 0 <= i < d.len() implies #[trigger] d[i].len() == 80 by {
        assert(d[i] == x[i]);
    }
    lemma_flat_len(d);
    if k < x.len() - 1 {
        lemma_flat_at(d, k);
        assert(flat_cards(x).subrange(80 * k, 80 * k + 80) =~= flat_cards(d).subrange(80 * k, 80 * k + 80));
        assert(d[k] == x[k]);
    } else {
        assert(flat_cards(x).subrange(80 * k, 80 * k + 80) =~= x.last());
    }
}

proof fn lemma_flat_len(x: Seq<Seq<u8>>)
    requires
        forall|i: int| 0 <= i < x.len() ==> #[trigger] x[i].len() == 80,
    ensures
        flat_cards(x).len() == 80 * x.len(),
    decreases x.len(),
{
    if x.len() > 0 {
        let d = x.drop_last();
        assert forall|i: int| 0 <= i < d.len() implies #[trigger] d[i].len() == 80 by {
            assert(d[i] == x[i]);
        }
        lemma_flat_len(d);
    }
}

/// The `END` card reads as an `END` card.
proof fn lemma_end_card()
    ensures
        is_end_card(card_of(latin1(card_bytes("END"@)))),
{
    reveal_strlit("END");
    let e = "END"@;
    assert forall|i: int| 0 <= i < e.len() implies printable(#[trigger] e[i]) by {}
    lemma_printable_line(e);
    let l = e + spaces(77);
    let f = l.subrange(0, 8);
    assert forall|i: int| 3 <= i < f.len() implies is_ws(#[trigger] f[i]) by {}
    lemma_trim_end_len_unique(f, 3);
    assert(trim_end(f) =~= e);
}

/// The header unit of `x` read card by card: card `k` is the `k`-th
/// written card, and the one after the last is `END`.
proof fn lemma_card_at(cards: Seq<CardView>, x: Seq<Seq<u8>>, k: int)
    requires
        x.len() == cards.len(),
        forall|i: int| 0 <= i < cards.len() ==> #[trigger] x[i].len() == 80 && card_of(latin1(x[i])) == cards[i],
        0 <= k <= cards.len(),
    ensures
        80 * k + 80 <= assembled(x).len(),
        k < cards.len() ==> card_of(latin1(assembled(x).subrange(80 * k, 80 * k + 80))) == cards[k],
        k == cards.len() ==> is_end_card(card_of(latin1(assembled(x).subrange(80 * k, 80 * k + 80)))),
{
    let b = assembled(x);
    lemma_flat_len(x);
    lemma_assembled_blocks(x);
    let f = flat_cards(x);
    if k < cards.len() {
        lemma_flat_at(x, k);
        assert(b.subrange(80 * k, 80 * k + 80) =~= b.subrange(0, f.len() as int).subrange(80 * k, 80 * k + 80));
        assert(x[k].len() == 80);
    } else {
        lemma_end_card();
    }
}

/// No card of a block filled with written cards is `END`.
proof fn lemma_no_end(cards: Seq<CardView>, x: Seq<Seq<u8>>, blk: int, j: int)
    requires
        x.len() == cards.len(),
        forall|i: int| 0 <= i < cards.len() ==> #[trigger] x[i].len() == 80 && card_of(latin1(x[i])) == cards[i],
        forall|i: int| 0 <= i < cards.len() ==> writable_card(#[trigger] cards[i]),
        0 <= blk,
        36 * blk + 36 <= cards.len(),
        0 <= j <= 36,
    ensures
        end_in_block(assembled(x), 0, blk, j) is None,
    decreases 36 - j,
{
    if j < 36 {
        let k = 36 * blk + j;
        lemma_card_at(cards, x, k);
        assert(0 + 2880 * blk + 80 * j == 80 * k);
        assert(writable_card(cards[k]));
        lemma_plain_kw(cards[k].0);
        lemma_no_end(cards, x, blk, j + 1);
    }
}

/// In the block holding the end of the written cards, `END` comes right
/// after them.
proof fn lemma_end_in_last(cards: Seq<CardView>, x: Seq<Seq<u8>>, j: int)
    requires
        x.len() == cards.len(),
        forall|i: int| 0 <= i < cards.len() ==> #[trigger] x[i].len() == 80 && card_of(latin1(x[i])) == cards[i],
        forall|i: int| 0 <= i < cards.len() ==> writable_card(#[trigger] cards[i]),
        0 <= j <= cards.len() % 36,
    ensures
        end_in_block(assembled(x), 0, (cards.len() / 36) as int, j) == Some((cards.len() % 36) as int),
    decreases cards.len() % 36 - j,
{
    let q = cards.len() / 36;
    let k = 36 * q + j;
    lemma_card_at(cards, x, k);
    assert(0 + 2880 * q + 80 * j == 80 * k);
    if j < cards.len() % 36 {
        assert(writable_card(cards[k]));
        lemma_plain_kw(cards[k].0);
        lemma_end_in_last(cards, x, j + 1);
    }
}

/// Scanning whole blocks from block `blk` finds `END` right after the
/// written cards.
proof fn lemma_end_pos(cards: Seq<CardView>, x: Seq<Seq<u8>>, blk: int)
    requires
        x.len() == cards.len(),
        forall|i: int| 0 <= i < cards.len() ==> #[trigger] x[i].len() == 80 && card_of(latin1(x[i])) == cards[i],
        forall|i: int| 0 <= i < cards.len() ==> writable_card(#[trigger] cards[i]),
        0 <= blk <= cards.len() / 36,
    ensures
        end_position(assembled(x), 0, blk) == Some(((cards.len() / 36) as int, (cards.len() % 36) as int)),
    decreases cards.len() / 36 - blk,
{
    let n = cards.len() as int;
    let q = n / 36;
    let r = n % 36;
    let b = assembled(x);
    lemma_flat_len(x);
    lemma_assembled_blocks(x);
    let m = b.len() / 2880;
    assert(b.len() == 2880 * m) by {
        vstd::arithmetic::div_mod::lemma_fundamental_div_mod(b.len() as int, 2880);
    }
    assert(n == 36 * q + r && 0 <= r < 36) by {
        vstd::arithmetic::div_mod::lemma_fundamental_div_mod(n, 36);
    }
    assert(2880 * (q + 1) <= b.len()) by (nonlinear_arith)
        requires b.len() == 2880 * m, 80 * n + 80 <= b.len(), n == 36 * q + r, 0 <= r < 36, q >= 0;
    assert(2880 * (blk + 1) <= 2880 * (q + 1)) by (nonlinear_arith)
        requires blk <= q;
    if blk < q {
        assert(36 * blk + 36 <= n) by (nonlinear_arith)
            requires blk + 1 <= q, n == 36 * q + r, r >= 0;
        lemma_no_end(cards, x, blk, 0);
        lemma_end_pos(cards, x, blk + 1);
    } else {
        lemma_end_in_last(cards, x, 0);
    }
}

/// The cards read before block `blk`, card `j`, are the first `36 blk + j`
/// written cards.
proof fn lemma_upto(cards: Seq<CardView>, x: Seq<Seq<u8>>, blk: int, j: int)
    requires
        x.len() == cards.len(),
        forall|i: int| 0 <= i < cards.len() ==> #[trigger] x[i].len() == 80 && card_of(latin1(x[i])) == cards[i],
        0 <= blk,
        0 <= j <= 36,
        36 * blk + j <= cards.len(),
    ensures
        cards_upto(assembled(x), 0, blk, j) == cards.subrange(0, 36 * blk + j),
    decreases blk, j,
{
    if blk <= 0 && j <= 0 {
        assert(cards.subrange(0, 0) =~= Seq::<CardView>::empty());
    } else if j <= 0 {
        lemma_upto(cards, x, blk - 1, 36);
    } else {
        lemma_upto(cards, x, blk, j - 1);
        let k = 36 * blk + j - 1;
        lemma_card_at(cards, x, k);
        assert(0 + 2880 * blk + 80 * (j - 1) == 80 * k);
        assert(cards.subrange(0, k).push(cards[k]) =~= cards.subrange(0, k + 1));
    }
}

/// Cards without `&`-terminated strings are left as they are by the
/// `CONTINUE` merge.
proof fn lemma_merge_plain(cards: Seq<CardView>, i: int)
    requires
        forall|k: int| 0 <= k < cards.len() ==> writable_card(#[trigger] cards[k]),
        0 <= i <= cards.len(),
    ensures
        merge_from(cards, i) == cards.subrange(i, cards.len() as int),
    decreases cards.len() - i,
{
    if i < cards.len() {
        assert(writable_card(cards[i]));
        lemma_merge_plain(cards, i + 1);
        assert(seq![cards[i]] + cards.subrange(i + 1, cards.len() as int) =~= cards.subrange(i, cards.len() as int));
    } else {
        assert(cards.subrange(i, i) =~= Seq::<CardView>::empty());
    }
}

/// Header round trip: the header unit assembled from writable cards (see
/// [`crate::writer::header_bytes`]) has its `END` card right after them,
/// and the cards read before it, `CONTINUE` chains merged (see
/// [`crate::header::Header::read`]), are the cards written.
pub proof fn lemma_header_roundtrip(cards: Seq<CardView>)
    requires
        forall|i: int| 0 <= i < cards.len() ==> writable_card(#[trigger] cards[i]),
    ensures
        serialized_all(cards) matches Some(x) && end_position(assembled(x), 0, 0) == Some(
            ((cards.len() / 36) as int, (cards.len() % 36) as int),
        ) && merge_from(cards_upto(assembled(x), 0, (cards.len() / 36) as int, (cards.len() % 36) as int), 0)
            == cards,
{
    lemma_serialized_all(cards);
    let x = serialized_all(cards)->Some_0;
    lemma_end_pos(cards, x, 0);
    let n = cards.len() as int;
    assert(36 * (n / 36) + n % 36 == n) by {
        vstd::arithmetic::div_mod::lemma_fundamental_div_mod(n, 36);
    }
    lemma_upto(cards, x, n / 36, n % 36);
    assert(cards.subrange(0, n) =~= cards);
    lemma_merge_plain(cards, 0);
    assert(cards.subrange(0, n) =~= cards);
}


/// Header update round trip: when `edits` apply to a header's cards and
/// every card they leave is writable, the header unit written for the
/// edited cards (see [`crate::writer::edited_header`]) reads back as
/// exactly those cards.
pub proof fn lemma_edited_header_reads_back(cards: Seq<CardView>, edits: Seq<CardEdit>)
    requires
        apply_all(cards, edits) is Some,
        forall|i: int|
            0 <= i < apply_all(cards, edits)->Some_0.len() ==> writable_card(
                #[trigger] apply_all(cards, edits)->Some_0[i],
            ),
    ensures
        ({
            let out = apply_all(cards, edits)->Some_0;
            serialized_all(out) matches Some(x) && end_position(assembled(x), 0, 0) == Some(
                ((out.len() / 36) as int, (out.len() % 36) as int),
            ) && merge_from(cards_upto(assembled(x), 0, (out.len() / 36) as int, (out.len() % 36) as int), 0)
                == out
        }),
{
    lemma_header_roundtrip(apply_all(cards, edits)->Some_0);
}

} // verus!
