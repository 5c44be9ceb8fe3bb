//! When a hand holds the cards that a pattern asks for.

use vstd::prelude::*;
use vstd::std_specs::cmp::PartialEqSpec;

verus! {

/// How often `x` stands in `s`.
pub open spec fn count_of<A>(s: Seq<A>, x: A) -> nat
    decreases s.len(),
{
    if s.len() == 0 {
        0
    } else {
        count_of(s.skip(1), x) + if s[0] == x {
            1nat
        } else {
            0nat
        }
    }
}

/// The hand holds every card of `wanted`, each at least as often as `wanted`
/// does: one card of the hand stands for at most one card wanted.
pub open spec fn covers<A>(hand: Seq<A>, wanted: Seq<A>) -> bool {
    forall|x: A| count_of(wanted, x) <= #[trigger] count_of(hand, x)
}

/// The sequence does not descend.
pub open spec fn ascending(s: Seq<usize>) -> bool {
    forall|i: int, j: int| 0 <= i <= j < s.len() ==> s[i] <= s[j]
}

/// `pattern` can be read off `hands` from left to right, skipping cards of
/// `hands` at will; cards are compared with `==` of `T`.
pub open spec fn is_subsequence<T: PartialEq>(pattern: Seq<T>, hands: Seq<T>) -> bool
    decreases hands.len(),
{
    if pattern.len() == 0 {
        true
    } else if hands.len() == 0 {
        false
    } else if hands[0].eq_spec(&pattern[0]) {
        is_subsequence(pattern.skip(1), hands.skip(1))
    } else {
        is_subsequence(pattern, hands.skip(1))
    }
}

/// `places` are places of `hands`, one for each card of `pattern` and
/// strictly ascending, at which `hands` holds a card equal to that card.
pub open spec fn is_embedding<T: PartialEq>(places: Seq<int>, pattern: Seq<T>, hands: Seq<T>) -> bool {
    &&& places.len() == pattern.len()
    &&& forall|j: int| 0 <= j < places.len() ==> 0 <= #[trigger] places[j] < hands.len()
    &&& forall|i: int, j: int| 0 <= i < j < places.len() ==> places[i] < places[j]
    &&& forall|j: int|
        0 <= j < places.len() ==> (#[trigger] hands[places[j]]).eq_spec(&pattern[j])
}

/// Every place moved by `by`.
pub open spec fn shifted(places: Seq<int>, by: int) -> Seq<int> {
    Seq::new(places.len(), |j: int| places[j] + by)
}

/// What can be read off a sequence from left to right has a place in it for
/// each of its cards, in ascending order.
pub proof fn lemma_subsequence_has_embedding<T: PartialEq>(pattern: Seq<T>, hands: Seq<T>)
    requires
        is_subsequence(pattern, hands),
    ensures
        exists|places: Seq<int>| is_embedding(places, pattern, hands),
    decreases hands.len(),
{
    if pattern.len() == 0 {
        assert(is_embedding(Seq::<int>::empty(), pattern, hands));
    } else {
        let rest = hands.skip(1);
        if hands[0].eq_spec(&pattern[0]) {
            let tail = pattern.skip(1);
            lemma_subsequence_has_embedding(tail, rest);
            let inner = choose|places: Seq<int>| is_embedding(places, tail, rest);
            let places = seq![0int] + shifted(inner, 1);
            assert forall|j: int| 0 <= j < places.len() implies 0 <= #[trigger] places[j]
                < hands.len() && hands[places[j]].eq_spec(&pattern[j]) by {
                if j > 0 {
                    assert(places[j] == inner[j - 1] + 1);
                    assert(rest[inner[j - 1]] == hands[places[j]]);
                    assert(tail[j - 1] == pattern[j]);
                }
            }
            assert forall|i: int, j: int| 0 <= i < j < places.len() implies places[i]
                < places[j] by {
                assert(places[j] == inner[j - 1] + 1);
                if i > 0 {
                    assert(places[i] == inner[i - 1] + 1);
                }
            }
            assert(is_embedding(places, pattern, hands));
        } else {
            lemma_subsequence_has_embedding(pattern, rest);
            let inner = choose|places: Seq<int>| is_embedding(places, pattern, rest);
            let places = shifted(inner, 1);
            assert forall|j: int| 0 <= j < places.len() implies 0 <= #[trigger] places[j]
                < hands.len() && hands[places[j]].eq_spec(&pattern[j]) by {
                assert(rest[inner[j]] == hands[places[j]]);
            }
            assert(is_embedding(places, pattern, hands));
        }
    }
}

/// What has a place in a sequence for each of its cards, in ascending order,
/// can be read off the sequence from left to right.
pub proof fn lemma_embedding_is_subsequence<T: PartialEq>(
    places: Seq<int>,
    pattern: Seq<T>,
    hands: Seq<T>,
)
    requires
        is_embedding(places, pattern, hands),
    ensures
        is_subsequence(pattern, hands),
    decreases hands.len(),
{
    if pattern.len() > 0 {
        assert(0 <= places[0] < hands.len());
        let rest = hands.skip(1);
        if hands[0].eq_spec(&pattern[0]) {
            let tail = pattern.skip(1);
            let inner = shifted(places.skip(1), -1);
            assert forall|j: int| 0 <= j < inner.len() implies 0 <= #[trigger] inner[j]
                < rest.len() && rest[inner[j]].eq_spec(&tail[j]) by {
                assert(inner[j] == places[j + 1] - 1);
                assert(places[0] < places[j + 1]);
                assert(rest[inner[j]] == hands[places[j + 1]]);
                assert(tail[j] == pattern[j + 1]);
            }
            assert forall|i: int, j: int| 0 <= i < j < inner.len() implies inner[i]
                < inner[j] by {
                assert(inner[i] == places[i + 1] - 1 && inner[j] == places[j + 1] - 1);
            }
            lemma_embedding_is_subsequence(inner, tail, rest);
        } else {
            let inner = shifted(places, -1);
            assert forall|j: int| 0 <= j < inner.len() implies 0 <= #[trigger] inner[j]
                < rest.len() && rest[inner[j]].eq_spec(&pattern[j]) by {
                assert(inner[j] == places[j] - 1);
                if j > 0 {
                    assert(places[0] < places[j]);
                } else {
                    assert(hands[places[0]].eq_spec(&pattern[0]));
                }
                assert(rest[inner[j]] == hands[places[j]]);
            }
            lemma_embedding_is_subsequence(inner, pattern, rest);
        }
    }
}

/// A value that stands in a sequence stands at some place of it.
pub proof fn lemma_count_positive_has_index<A>(s: Seq<A>, x: A)
    requires
        count_of(s, x) > 0,
    ensures
        exists|i: int| 0 <= i < s.len() && s[i] == x,
    decreases s.len(),
{
    if s[0] == x {
    } else {
        lemma_count_positive_has_index(s.skip(1), x);
        let i = choose|i: int| 0 <= i < s.skip(1).len() && s.skip(1)[i] == x;
        assert(s[i + 1] == x);
    }
}

/// A value that stands at some place of a sequence is counted.
pub proof fn lemma_index_has_count_positive<A>(s: Seq<A>, i: int)
    requires
        0 <= i < s.len(),
    ensures
        count_of(s, s[i]) > 0,
    decreases s.len(),
{
    if i > 0 {
        assert(s.skip(1)[i - 1] == s[i]);
        lemma_index_has_count_positive(s.skip(1), i - 1);
    }
}

/// Of two sequences that do not descend, the one can be read off the other
/// exactly when the other holds each of its values often enough.
pub proof fn lemma_ascending_subsequence_covers(pattern: Seq<usize>, hands: Seq<usize>)
    requires
        ascending(pattern),
        ascending(hands),
    ensures
        is_subsequence(pattern, hands) <==> covers(hands, pattern),
    decreases hands.len(),
{
    if pattern.len() == 0 {
        assert forall|x: usize| count_of(pattern, x) <= #[trigger] count_of(hands, x) by {}
    } else if hands.len() == 0 {
        assert(count_of(pattern, pattern[0]) > 0);
        assert(count_of(hands, pattern[0]) == 0);
    } else {
        let h = hands.skip(1);
        assert(ascending(h)) by {
            assert forall|i: int, j: int| 0 <= i <= j < h.len() implies h[i] <= h[j] by {
                assert(h[i] == hands[i + 1] && h[j] == hands[j + 1]);
            }
        }
        if hands[0] == pattern[0] {
            let p = pattern.skip(1);
            assert(ascending(p)) by {
                assert forall|i: int, j: int| 0 <= i <= j < p.len() implies p[i] <= p[j] by {
                    assert(p[i] == pattern[i + 1] && p[j] == pattern[j + 1]);
                }
            }
            lemma_ascending_subsequence_covers(p, h);
            assert(is_subsequence(pattern, hands) == is_subsequence(p, h));
            if covers(h, p) {
                assert forall|x: usize| count_of(pattern, x) <= #[trigger] count_of(
                    hands,
                    x,
                ) by {
                    assert(count_of(p, x) <= count_of(h, x));
                }
            }
            if covers(hands, pattern) {
                assert forall|x: usize| count_of(p, x) <= #[trigger] count_of(h, x) by {
                    assert(count_of(pattern, x) <= count_of(hands, x));
                }
            }
        } else {
            lemma_ascending_subsequence_covers(pattern, h);
            assert(is_subsequence(pattern, hands) == is_subsequence(pattern, h));
            if covers(h, pattern) {
                assert forall|x: usize| count_of(pattern, x) <= #[trigger] count_of(
                    hands,
                    x,
                ) by {
                    assert(count_of(pattern, x) <= count_of(h, x));
                }
            }
            if covers(hands, pattern) {
                // The first card of the hand is none of the cards wanted: a
                // wanted card below it would be missing from the hand.
                assert(count_of(pattern, hands[0]) == 0) by {
                    if count_of(pattern, hands[0]) > 0 {
                        lemma_count_positive_has_index(pattern, hands[0]);
                        let i = choose|i: int| 0 <= i < pattern.len() && pattern[i] == hands[0];
                        assert(pattern[0] <= pattern[i]);
                        assert(count_of(pattern, pattern[0]) > 0);
                        assert(count_of(hands, pattern[0]) > 0);
                        lemma_count_positive_has_index(hands, pattern[0]);
                        let j = choose|j: int| 0 <= j < hands.len() && hands[j] == pattern[0];
                        assert(hands[0] <= hands[j]);
                    }
                }
                assert forall|x: usize| count_of(pattern, x) <= #[trigger] count_of(h, x) by {
                    assert(count_of(pattern, x) <= count_of(hands, x));
                }
            }
        }
    }
}

} // verus!
