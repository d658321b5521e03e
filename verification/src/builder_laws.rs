//! What an image header built with `HeaderBuilder` reads back as: the
//! mandatory cards (`SIMPLE` or `XTENSION`, `BITPIX`, `NAXIS`, `NAXISn`,
//! then `EXTEND` or `PCOUNT`/`GCOUNT`) with the values the builder was
//! given, followed by the extra cards, in order.

use vstd::prelude::*;
use crate::card::{CardView, ValueView, card_bytes};
use crate::card_laws::{plain_comment, plain_keyword, writable_value};
use crate::header::{BitPix, bitpix_value, cards_upto, end_position, ends_amp, merge_from};
use crate::header_laws::{lemma_header_roundtrip, writable_card};
use crate::text::{dec, dec_int, lemma_dec_digits, lemma_dec_len, pow10};
use crate::writer::{HeaderBuilder, assembled, fixed_kv_line, mandatory_seq, serialized_all, serialized_card};

verus! {

/// The mandatory cards of an image header, as a reader sees them.
pub open spec fn mandatory_views(primary: bool, bitpix: BitPix, axes: Seq<u64>) -> Seq<CardView> {
    let first: CardView = if primary {
        ("SIMPLE"@, ValueView::Logical(true), Some("conforms to FITS standard"@))
    } else {
        ("XTENSION"@, ValueView::String("IMAGE"@), Some("image extension"@))
    };
    let head = seq![
        first,
        ("BITPIX"@, ValueView::Integer(bitpix_value(bitpix) as i64), Some("bits per data value"@)),
        ("NAXIS"@, ValueView::Integer(axes.len() as i64), Some("number of data axes"@)),
    ];
    let axis_cards = Seq::new(
        axes.len(),
        |i: int| ("NAXIS"@ + dec((i + 1) as nat), ValueView::Integer(axes[i] as i64), Some("axis length"@)),
    );
    let tail: Seq<CardView> = if primary {
        seq![("EXTEND"@, ValueView::Logical(true), Some("file may contain extensions"@))]
    } else {
        seq![
            ("PCOUNT"@, ValueView::Integer(0), Some("no group parameters"@)),
            ("GCOUNT"@, ValueView::Integer(1), Some("one data group"@)),
        ]
    };
    head + axis_cards + tail
}

/// Serializing card by card: when every card has its image, the sequence
/// serializes to those images.
proof fn lemma_serialized_pointwise(cs: Seq<CardView>, x: Seq<Seq<u8>>)
    requires
        x.len() == cs.len(),
        forall|i: int| 0 <= i < cs.len() ==> #[trigger] serialized_card(cs[i].0, cs[i].1, cs[i].2) == Some(x[i]),
    ensures
        serialized_all(cs) == Some(x),
    decreases cs.len(),
{
    if cs.len() > 0 {
        let d = cs.drop_last();
        assert forall|i: int| 0 <= i < d.len() implies #[trigger] serialized_card(d[i].0, d[i].1, d[i].2) == Some(
            x.drop_last()[i],
        ) by {
            assert(d[i] == cs[i]);
        }
        lemma_serialized_pointwise(d, x.drop_last());
        let k = cs.len() - 1;
        assert(serialized_card(cs[k].0, cs[k].1, cs[k].2) == Some(x[k]));
        assert(x.drop_last().push(x.last()) =~= x);
    }
}

/// The serialized cards of a sequence, one per card.
proof fn lemma_serialized_each(cs: Seq<CardView>)
    requires
        serialized_all(cs) is Some,
    ensures
        serialized_all(cs)->Some_0.len() == cs.len(),
        forall|i: int|
            0 <= i < cs.len() ==> #[trigger] serialized_card(cs[i].0, cs[i].1, cs[i].2) == Some(
                serialized_all(cs)->Some_0[i],
            ),
    decreases cs.len(),
{
    if cs.len() > 0 {
        let d = cs.drop_last();
        lemma_serialized_each(d);
        assert forall|i: int| 0 <= i < cs.len() implies #[trigger] serialized_card(cs[i].0, cs[i].1, cs[i].2) == Some(
            serialized_all(cs)->Some_0[i],
        ) by {
            if i < d.len() {
                assert(d[i] == cs[i]);
            }
        }
    }
}

/// The text of an axis length, as an integer value, is its decimal digits.
proof fn lemma_nonneg_int_text(v: u64)
    requires
        v <= i64::MAX,
    ensures
        dec_int((v as i64) as int) == dec(v as nat),
{
}

/// The one-digit texts written for `PCOUNT` and `GCOUNT`.
proof fn lemma_small_dec()
    ensures
        dec(0) == "0"@,
        dec(1) == "1"@,
        dec_int(0) == "0"@,
        dec_int(1) == "1"@,
{
    reveal_strlit("0");
    reveal_strlit("1");
    let x: u32 = 48;
    let y: u32 = 49;
    assert((x as char) as u32 == x);
    assert((y as char) as u32 == y);
    assert('0' as u32 == 48);
    assert('1' as u32 == 49);
    assert((x as char) == '0');
    assert((y as char) == '1');
    assert(dec(0) =~= "0"@);
    assert(dec(1) =~= "1"@);
}

/// The mandatory cards serialize to the images the builder writes for
/// them.
#[verifier::rlimit(40)]
proof fn lemma_mandatory_serialized(primary: bool, bitpix: BitPix, axes: Seq<u64>)
    requires
        axes.len() <= 999,
        forall|i: int| 0 <= i < axes.len() ==> #[trigger] axes[i] <= i64::MAX,
        mandatory_seq(primary, bitpix, axes) is Some,
    ensures
        serialized_all(mandatory_views(primary, bitpix, axes)) == mandatory_seq(primary, bitpix, axes),
{
    let m = mandatory_seq(primary, bitpix, axes)->Some_0;
    let cs = mandatory_views(primary, bitpix, axes);
    let n = axes.len() as int;
    reveal_strlit("T");
    let first_m = if primary {
        card_bytes(fixed_kv_line("SIMPLE"@, "T"@, Some("conforms to FITS standard"@)))
    } else {
        serialized_card("XTENSION"@, ValueView::String("IMAGE"@), Some("image extension"@))->Some_0
    };
    let head_m = seq![
        first_m,
        card_bytes(fixed_kv_line("BITPIX"@, dec_int(bitpix_value(bitpix)), Some("bits per data value"@))),
        card_bytes(fixed_kv_line("NAXIS"@, dec(axes.len()), Some("number of data axes"@))),
    ];
    let axis_m = Seq::new(
        axes.len(),
        |i: int| card_bytes(fixed_kv_line("NAXIS"@ + dec((i + 1) as nat), dec(axes[i] as nat), Some("axis length"@))),
    );
    let tail_m = if primary {
        seq![card_bytes(fixed_kv_line("EXTEND"@, "T"@, Some("file may contain extensions"@)))]
    } else {
        seq![
            card_bytes(fixed_kv_line("PCOUNT"@, "0"@, Some("no group parameters"@))),
            card_bytes(fixed_kv_line("GCOUNT"@, "1"@, Some("one data group"@))),
        ]
    };
    assert(m == head_m + axis_m + tail_m);
    assert(m.len() == cs.len());
    let first_c: CardView = if primary {
        ("SIMPLE"@, ValueView::Logical(true), Some("conforms to FITS standard"@))
    } else {
        ("XTENSION"@, ValueView::String("IMAGE"@), Some("image extension"@))
    };
    let head_c = seq![
        first_c,
        ("BITPIX"@, ValueView::Integer(bitpix_value(bitpix) as i64), Some("bits per data value"@)),
        ("NAXIS"@, ValueView::Integer(axes.len() as i64), Some("number of data axes"@)),
    ];
    let axis_c = Seq::new(
        axes.len(),
        |i: int| ("NAXIS"@ + dec((i + 1) as nat), ValueView::Integer(axes[i] as i64), Some("axis length"@)),
    );
    let tail_c: Seq<CardView> = if primary {
        seq![("EXTEND"@, ValueView::Logical(true), Some("file may contain extensions"@))]
    } else {
        seq![
            ("PCOUNT"@, ValueView::Integer(0), Some("no group parameters"@)),
            ("GCOUNT"@, ValueView::Integer(1), Some("one data group"@)),
        ]
    };
    assert(cs == head_c + axis_c + tail_c);
    assert(serialized_card(head_c[0].0, head_c[0].1, head_c[0].2) == Some(head_m[0])) by {
        if primary {
            assert("T"@ =~= seq!['T']);
            assert(head_c[0] == first_c);
            assert(head_m[0] == first_m);
        } else {
            assert(head_c[0] == first_c);
            assert(head_m[0] == first_m);
        }
    }
    assert(serialized_card(head_c[1].0, head_c[1].1, head_c[1].2) == Some(head_m[1])) by {
        assert(bitpix_value(bitpix) as i64 as int == bitpix_value(bitpix));
    }
    assert(serialized_card(head_c[2].0, head_c[2].1, head_c[2].2) == Some(head_m[2])) by {
        lemma_nonneg_int_text(axes.len() as u64);
    }
    assert forall|j: int| 0 <= j < n implies #[trigger] serialized_card(axis_c[j].0, axis_c[j].1, axis_c[j].2) == Some(
        axis_m[j],
    ) by {
        lemma_nonneg_int_text(axes[j]);
    }
    assert forall|j: int| 0 <= j < tail_c.len() implies #[trigger] serialized_card(
        tail_c[j].0,
        tail_c[j].1,
        tail_c[j].2,
    ) == Some(tail_m[j]) by {
        if primary {
            assert("T"@ =~= seq!['T']);
        } else {
            lemma_small_dec();
            if j == 0 {
                assert(tail_c[0].1 == ValueView::Integer(0));
            } else {
                assert(tail_c[1].1 == ValueView::Integer(1));
            }
        }
    }
    assert forall|i: int| 0 <= i < cs.len() implies #[trigger] serialized_card(cs[i].0, cs[i].1, cs[i].2) == Some(m[i]) by {
        if i < 3 {
            assert(m[i] == head_m[i]);
            assert(cs[i] == head_c[i]);
        } else if i < 3 + n {
            assert(m[i] == axis_m[i - 3]);
            assert(cs[i] == axis_c[i - 3]);
        } else {
            assert(m[i] == tail_m[i - 3 - n]);
            assert(cs[i] == tail_c[i - 3 - n]);
        }
    }
    lemma_serialized_pointwise(cs, m);
}

/// `NAXISn` for an axis number from 1 to 999 is a plain keyword.
proof fn lemma_axis_keyword(k: nat)
    requires
        1 <= k <= 999,
    ensures
        plain_keyword("NAXIS"@ + dec(k)),
{
    reveal_strlit("NAXIS");
    reveal_strlit("COMMENT");
    reveal_strlit("HISTORY");
    reveal_strlit("END");
    reveal_strlit("HIERARCH");
    reveal_strlit("CONTINUE");
    lemma_dec_digits(k);
    assert(pow10(3) == 1000) by {
        reveal_with_fuel(pow10, 4);
    }
    lemma_dec_len(k, 3);
    let kw = "NAXIS"@ + dec(k);
    assert(kw[0] == 'N');
    assert(kw != "COMMENT"@ && kw != "HISTORY"@ && kw != "END"@ && kw != "HIERARCH"@ && kw != "CONTINUE"@) by {
        assert(kw[0] != "COMMENT"@[0]);
        assert(kw[0] != "HISTORY"@[0]);
        assert(kw[0] != "HIERARCH"@[0]);
        assert(kw[0] != "CONTINUE"@[0]);
        assert(kw.len() != "END"@.len());
    }
}

/// Every mandatory card is one the reader gives back unchanged.
proof fn lemma_mandatory_writable(primary: bool, bitpix: BitPix, axes: Seq<u64>)
    requires
        axes.len() <= 999,
    ensures
        forall|i: int|
            0 <= i < mandatory_views(primary, bitpix, axes).len() ==> writable_card(
                #[trigger] mandatory_views(primary, bitpix, axes)[i],
            ),
{
    let cs = mandatory_views(primary, bitpix, axes);
    let n = axes.len() as int;
    reveal_strlit("SIMPLE");
    reveal_strlit("XTENSION");
    reveal_strlit("IMAGE");
    reveal_strlit("BITPIX");
    reveal_strlit("NAXIS");
    reveal_strlit("EXTEND");
    reveal_strlit("PCOUNT");
    reveal_strlit("GCOUNT");
    reveal_strlit("COMMENT");
    reveal_strlit("HISTORY");
    reveal_strlit("END");
    reveal_strlit("HIERARCH");
    reveal_strlit("CONTINUE");
    reveal_strlit("conforms to FITS standard");
    reveal_strlit("image extension");
    reveal_strlit("bits per data value");
    reveal_strlit("number of data axes");
    reveal_strlit("axis length");
    reveal_strlit("file may contain extensions");
    reveal_strlit("no group parameters");
    reveal_strlit("one data group");
    assert forall|i: int| 0 <= i < cs.len() implies writable_card(#[trigger] cs[i]) by {
        if 3 <= i < 3 + n {
            lemma_axis_keyword((i - 2) as nat);
        }
    }
}

/// An image header built with [`HeaderBuilder`] reads back as its
/// mandatory cards, with the values it was given, followed by its extra
/// cards: the header unit [`HeaderBuilder::serialize`] writes has its `END`
/// card right after them, and the cards read before it are exactly these.
/// Axis lengths must read back as integers (at most `i64::MAX`), there may
/// be at most 999 axes (so that every `NAXISn` is a keyword), and the extra
/// cards must be ones the reader gives back unchanged.
pub proof fn lemma_image_header_reads_back(b: HeaderBuilder)
    requires
        b.spec_axes().len() <= 999,
        forall|i: int| 0 <= i < b.spec_axes().len() ==> #[trigger] b.spec_axes()[i] <= i64::MAX,
        forall|i: int| 0 <= i < b.spec_extra().len() ==> writable_card(#[trigger] b.spec_extra()[i]),
    ensures
        ({
            let cards = mandatory_views(b.is_primary(), b.spec_bitpix(), b.spec_axes()) + b.spec_extra();
            b.spec_bytes() matches Some(bytes) && end_position(bytes, 0, 0) == Some(
                ((cards.len() / 36) as int, (cards.len() % 36) as int),
            ) && merge_from(cards_upto(bytes, 0, (cards.len() / 36) as int, (cards.len() % 36) as int), 0) == cards
        }),
{
    let m = mandatory_views(b.is_primary(), b.spec_bitpix(), b.spec_axes());
    let e = b.spec_extra();
    let cards = m + e;
    lemma_mandatory_writable(b.is_primary(), b.spec_bitpix(), b.spec_axes());
    assert forall|i: int| 0 <= i < cards.len() implies writable_card(#[trigger] cards[i]) by {
        if i < m.len() {
            assert(cards[i] == m[i]);
        } else {
            assert(cards[i] == e[i - m.len()]);
        }
    }
    lemma_header_roundtrip(cards);
    let all = serialized_all(cards)->Some_0;
    lemma_serialized_each(cards);
    // The mandatory images are the first ones, the extra images the rest.
    let ms = all.subrange(0, m.len() as int);
    let es = all.subrange(m.len() as int, all.len() as int);
    assert forall|i: int| 0 <= i < m.len() implies #[trigger] serialized_card(m[i].0, m[i].1, m[i].2) == Some(ms[i]) by {
        assert(cards[i] == m[i]);
    }
    lemma_serialized_pointwise(m, ms);
    assert forall|i: int| 0 <= i < e.len() implies #[trigger] serialized_card(e[i].0, e[i].1, e[i].2) == Some(es[i]) by {
        assert(cards[m.len() + i] == e[i]);
    }
    lemma_serialized_pointwise(e, es);
    assert(mandatory_seq(b.is_primary(), b.spec_bitpix(), b.spec_axes()) is Some) by {
        reveal_strlit("XTENSION");
        reveal_strlit("IMAGE");
        reveal_strlit("image extension");
        assert(serialized_card(m[0].0, m[0].1, m[0].2) is Some);
    }
    lemma_mandatory_serialized(b.is_primary(), b.spec_bitpix(), b.spec_axes());
    assert(ms + es =~= all);
}

} // verus!
