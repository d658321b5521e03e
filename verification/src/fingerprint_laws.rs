//! What a stack fingerprint does not depend on: the order in which the
//! stack lists its observations. The paths are sorted before they are
//! hashed, so any two listings of the same paths give the same text and the
//! same digest.

use vstd::prelude::*;
use vstd::relations::{sorted_by, total_ordering};
use vstd::seq_lib::{lemma_multiset_commutative, lemma_sorted_unique};
use crate::fingerprint::{hex_lower, insert_sorted, linear_stack_input, observation_texts, sha256_of_text, sorted_texts, text_le};
use crate::card::opt_view;
use crate::config::ProjectLinearStack;

verus! {

/// The order the fingerprint sorts paths by.
pub open spec fn text_order() -> spec_fn(Seq<char>, Seq<char>) -> bool {
    |a: Seq<char>, b: Seq<char>| text_le(a, b)
}

proof fn lemma_text_le_refl(a: Seq<char>)
    ensures
        text_le(a, a),
    decreases a.len(),
{
    if a.len() > 0 {
        lemma_text_le_refl(a.drop_first());
    }
}

proof fn lemma_text_le_antisym(a: Seq<char>, b: Seq<char>)
    requires
        text_le(a, b),
        text_le(b, a),
    ensures
        a == b,
    decreases a.len(),
{
    if a.len() == 0 {
        assert(a =~= b);
    } else {
        assert(b.len() > 0);
        if a[0] == b[0] {
            lemma_text_le_antisym(a.drop_first(), b.drop_first());
            assert(a.drop_first().len() == b.drop_first().len());
            assert(a.len() == b.len());
            assert forall|i: int| 0 <= i < a.len() implies a[i] == b[i] by {
                if i > 0 {
                    assert(a[i] == a.drop_first()[i - 1]);
                    assert(b[i] == b.drop_first()[i - 1]);
                }
            }
            assert(a =~= b);
        }
    }
}

proof fn lemma_text_le_trans(a: Seq<char>, b: Seq<char>, c: Seq<char>)
    requires
        text_le(a, b),
        text_le(b, c),
    ensures
        text_le(a, c),
    decreases a.len(),
{
    if a.len() > 0 {
        assert(b.len() > 0);
        assert(c.len() > 0);
        if a[0] == b[0] && b[0] == c[0] {
            lemma_text_le_trans(a.drop_first(), b.drop_first(), c.drop_first());
        }
    }
}

proof fn lemma_text_le_total(a: Seq<char>, b: Seq<char>)
    ensures
        text_le(a, b) || text_le(b, a),
    decreases a.len(),
{
    if a.len() > 0 && b.len() > 0 {
        if a[0] == b[0] {
            lemma_text_le_total(a.drop_first(), b.drop_first());
        } else {
            if a[0] < b[0] {
                assert(text_le(a, b));
            } else {
                assert(text_le(b, a));
            }
        }
    }
}

/// Texts are totally ordered by code point, a prefix first.
pub proof fn lemma_text_order_total()
    ensures
        total_ordering(text_order()),
{
    let le = text_order();
    assert forall|x: Seq<char>| #[trigger] le(x, x) by {
        lemma_text_le_refl(x);
    }
    assert forall|x: Seq<char>, y: Seq<char>| #[trigger] le(x, y) && #[trigger] le(y, x) implies x == y by {
        lemma_text_le_antisym(x, y);
    }
    assert forall|x: Seq<char>, y: Seq<char>, z: Seq<char>| #[trigger] le(x, y) && #[trigger] le(y, z) implies le(x, z) by {
        lemma_text_le_trans(x, y, z);
    }
    assert forall|x: Seq<char>, y: Seq<char>| #[trigger] le(x, y) || #[trigger] le(y, x) by {
        lemma_text_le_total(x, y);
    }
}

/// Inserting into a sorted sequence keeps it sorted and adds the element.
proof fn lemma_insert_sorted(s: Seq<Seq<char>>, x: Seq<char>)
    requires
        sorted_by(s, text_order()),
    ensures
        sorted_by(insert_sorted(s, x), text_order()),
        insert_sorted(s, x).to_multiset() == s.to_multiset().insert(x),
    decreases s.len(),
{
    broadcast use vstd::seq_lib::group_to_multiset_ensures;
    broadcast use vstd::multiset::group_multiset_axioms;

    let le = text_order();
    lemma_text_order_total();
    if s.len() == 0 {
        assert(insert_sorted(s, x) =~= Seq::<Seq<char>>::empty().push(x));
    } else if text_le(x, s[0]) {
        vstd::relations::lemma_new_first_element_still_sorted_by(x, s, le);
        lemma_multiset_commutative(seq![x], s);
        assert(seq![x] =~= Seq::<Seq<char>>::empty().push(x));
    } else {
        let t = s.drop_first();
        assert(sorted_by(t, le)) by {
            assert forall|i: int, j: int| 0 <= i < j < t.len() implies #[trigger] le(t[i], t[j]) by {
                assert(le(s[i + 1], s[j + 1]));
            }
        }
        lemma_insert_sorted(t, x);
        let rest = insert_sorted(t, x);
        assert(le(s[0], rest[0])) by {
            assert(rest.to_multiset().count(rest[0]) > 0);
            if rest[0] == x {
                lemma_text_le_total(x, s[0]);
            } else {
                assert(t.to_multiset().count(rest[0]) > 0);
                assert(t.contains(rest[0]));
                let k = choose|k: int| 0 <= k < t.len() && t[k] == rest[0];
                assert(le(s[0], s[k + 1]));
            }
        }
        vstd::relations::lemma_new_first_element_still_sorted_by(s[0], rest, le);
        lemma_multiset_commutative(seq![s[0]], rest);
        lemma_multiset_commutative(seq![s[0]], t);
        assert(seq![s[0]] + t =~= s);
        assert(seq![s[0]] =~= Seq::<Seq<char>>::empty().push(s[0]));
        assert(insert_sorted(s, x).to_multiset() =~= s.to_multiset().insert(x));
    }
}

/// The sorted texts are sorted and hold the same texts.
pub proof fn lemma_sorted_texts(s: Seq<Seq<char>>)
    ensures
        sorted_by(sorted_texts(s), text_order()),
        sorted_texts(s).to_multiset() == s.to_multiset(),
    decreases s.len(),
{
    broadcast use vstd::seq_lib::group_to_multiset_ensures;

    if s.len() == 0 {
        assert(sorted_texts(s).to_multiset() =~= s.to_multiset());
    } else {
        lemma_sorted_texts(s.drop_last());
        lemma_insert_sorted(sorted_texts(s.drop_last()), s.last());
        assert(s.drop_last().push(s.last()) =~= s);
    }
}

/// A stack fingerprint does not depend on the order of the observation
/// paths: two listings of the same paths (the same multiset) give the same
/// fingerprint text, hence the same digest.
pub proof fn lemma_fingerprint_ignores_path_order(
    name: Seq<char>,
    filter: Option<Seq<char>>,
    extract_background: bool,
    p: Seq<Seq<char>>,
    q: Seq<Seq<char>>,
)
    requires
        p.to_multiset() == q.to_multiset(),
    ensures
        linear_stack_input(name, filter, extract_background, p) == linear_stack_input(name, filter, extract_background, q),
        hex_lower(sha256_of_text(linear_stack_input(name, filter, extract_background, p))) == hex_lower(
            sha256_of_text(linear_stack_input(name, filter, extract_background, q)),
        ),
{
    lemma_text_order_total();
    lemma_sorted_texts(p);
    lemma_sorted_texts(q);
    lemma_sorted_unique(sorted_texts(p), sorted_texts(q), text_order());
}

/// Two linear stacks with the same name, filter and background option
/// whose observations are the same paths in any order have the same
/// fingerprint ([`crate::fingerprint::hash_linear_stack`] gives the digest
/// of this text for each).
pub proof fn lemma_stack_fingerprint_ignores_order(s1: ProjectLinearStack, s2: ProjectLinearStack)
    requires
        s1.name@ == s2.name@,
        opt_view(s1.filter) == opt_view(s2.filter),
        s1.extract_background == s2.extract_background,
        observation_texts(s1.observations@).to_multiset() == observation_texts(s2.observations@).to_multiset(),
    ensures
        hex_lower(
            sha256_of_text(
                linear_stack_input(s1.name@, opt_view(s1.filter), s1.extract_background, observation_texts(s1.observations@)),
            ),
        ) == hex_lower(
            sha256_of_text(
                linear_stack_input(s2.name@, opt_view(s2.filter), s2.extract_background, observation_texts(s2.observations@)),
            ),
        ),
{
    lemma_fingerprint_ignores_path_order(
        s1.name@,
        opt_view(s1.filter),
        s1.extract_background,
        observation_texts(s1.observations@),
        observation_texts(s2.observations@),
    );
}

} // verus!
