//! Every hand of a given size, as the places of its cards in the deck.

use crate::combinations::binomial;
use vstd::prelude::*;

verus! {

/// The strictly ascending sequences of `k` places out of `lo..n`, in
/// lexicographic order: first those that begin with `lo`, then the others.
pub open spec fn index_combinations(lo: nat, n: nat, k: nat) -> Seq<Seq<usize>>
    decreases n - lo,
{
    if k == 0 {
        seq![Seq::<usize>::empty()]
    } else if lo >= n {
        Seq::<Seq<usize>>::empty()
    } else {
        index_combinations(lo + 1, n, (k - 1) as nat).map_values(
            |tail: Seq<usize>| seq![lo as usize] + tail,
        ) + index_combinations(lo + 1, n, k)
    }
}

/// There are as many hands of `k` cards as there are ways to choose `k` out
/// of the cards of the deck.
pub proof fn lemma_index_combinations_len(lo: nat, n: nat, k: nat)
    requires
        lo <= n,
    ensures
        index_combinations(lo, n, k).len() == binomial((n - lo) as nat, k),
    decreases n - lo,
{
    if k == 0 {
    } else if lo >= n {
    } else {
        lemma_index_combinations_len(lo + 1, n, (k - 1) as nat);
        lemma_index_combinations_len(lo + 1, n, k);
    }
}

/// Each enumerated hand has `k` places, all of them in `lo..n`, in strictly
/// ascending order.
pub proof fn lemma_index_combinations_shape(lo: nat, n: nat, k: nat, at: int)
    requires
        lo <= n <= usize::MAX,
        0 <= at < index_combinations(lo, n, k).len(),
    ensures
        index_combinations(lo, n, k)[at].len() == k,
        forall|j: int| 0 <= j < k ==> lo <= #[trigger] index_combinations(lo, n, k)[at][j] < n,
        forall|i: int, j: int|
            0 <= i < j < k ==> index_combinations(lo, n, k)[at][i] < index_combinations(
                lo,
                n,
                k,
            )[at][j],
    decreases n - lo,
{
    if k == 0 {
    } else if lo >= n {
    } else {
        let with = index_combinations(lo + 1, n, (k - 1) as nat);
        let without = index_combinations(lo + 1, n, k);
        let hand = index_combinations(lo, n, k)[at];
        if at < with.len() {
            lemma_index_combinations_shape(lo + 1, n, (k - 1) as nat, at);
            let tail = with[at];
            assert(hand == seq![lo as usize] + tail);
            assert forall|j: int| 0 <= j < k implies lo <= #[trigger] hand[j] < n by {
                if j > 0 {
                    assert(hand[j] == tail[j - 1]);
                }
            }
            assert forall|i: int, j: int| 0 <= i < j < k implies hand[i] < hand[j] by {
                assert(hand[j] == tail[j - 1]);
                if i > 0 {
                    assert(hand[i] == tail[i - 1]);
                }
            }
        } else {
            lemma_index_combinations_shape(lo + 1, n, k, at - with.len());
            assert(hand == without[at - with.len()]);
        }
    }
}

/// `hand` is a hand of `k` cards out of the places `lo..n`: its places are
/// in that range and strictly ascending.
pub open spec fn is_hand(hand: Seq<usize>, lo: nat, n: nat, k: nat) -> bool {
    &&& hand.len() == k
    &&& forall|j: int| 0 <= j < hand.len() ==> lo <= #[trigger] hand[j] < n
    &&& forall|i: int, j: int| 0 <= i < j < hand.len() ==> hand[i] < hand[j]
}

/// `a` comes before `b` in lexicographic order: at the first place where
/// they differ, `a` has the smaller value.
pub open spec fn lex_before(a: Seq<usize>, b: Seq<usize>) -> bool {
    exists|p: int|
        0 <= p < a.len() && p < b.len() && a[p] < #[trigger] b[p] && forall|q: int|
            0 <= q < p ==> a[q] == b[q]
}

/// Every hand of `k` cards out of the places `lo..n` is enumerated.
pub proof fn lemma_index_combinations_complete(lo: nat, n: nat, k: nat, hand: Seq<usize>)
    requires
        lo <= n <= usize::MAX,
        is_hand(hand, lo, n, k),
    ensures
        index_combinations(lo, n, k).contains(hand),
    decreases n - lo,
{
    let all = index_combinations(lo, n, k);
    if k == 0 {
        assert(hand =~= Seq::<usize>::empty());
        assert(all[0] == hand);
    } else {
        assert(lo <= hand[0] < n);
        let with = index_combinations(lo + 1, n, (k - 1) as nat);
        let without = index_combinations(lo + 1, n, k);
        if hand[0] == lo {
            let tail = hand.skip(1);
            assert forall|j: int| 0 <= j < tail.len() implies lo + 1 <= #[trigger] tail[j] < n by {
                assert(tail[j] == hand[j + 1]);
                assert(hand[0] < hand[j + 1]);
            }
            assert forall|i: int, j: int| 0 <= i < j < tail.len() implies tail[i] < tail[j] by {
                assert(tail[i] == hand[i + 1] && tail[j] == hand[j + 1]);
            }
            lemma_index_combinations_complete(lo + 1, n, (k - 1) as nat, tail);
            let at = choose|at: int| 0 <= at < with.len() && with[at] == tail;
            assert(seq![lo as usize] + tail =~= hand);
            assert(all[at] == hand);
        } else {
            assert forall|j: int| 0 <= j < hand.len() implies lo + 1 <= #[trigger] hand[j] < n by {
                if j > 0 {
                    assert(hand[0] < hand[j]);
                }
            }
            lemma_index_combinations_complete(lo + 1, n, k, hand);
            let at = choose|at: int| 0 <= at < without.len() && without[at] == hand;
            assert(all[with.len() + at] == hand);
        }
    }
}

/// The hands are enumerated in lexicographic order, so none of them twice.
pub proof fn lemma_index_combinations_ordered(lo: nat, n: nat, k: nat, i: int, j: int)
    requires
        lo <= n <= usize::MAX,
        0 <= i < j < index_combinations(lo, n, k).len(),
    ensures
        lex_before(index_combinations(lo, n, k)[i], index_combinations(lo, n, k)[j]),
    decreases n - lo,
{
    let all = index_combinations(lo, n, k);
    if k == 0 {
    } else if lo >= n {
    } else {
        let with = index_combinations(lo + 1, n, (k - 1) as nat);
        let without = index_combinations(lo + 1, n, k);
        let a = all[i];
        let b = all[j];
        lemma_index_combinations_shape(lo, n, k, i);
        lemma_index_combinations_shape(lo, n, k, j);
        if j < with.len() {
            lemma_index_combinations_ordered(lo + 1, n, (k - 1) as nat, i, j);
            let p = choose|p: int|
                0 <= p < with[i].len() && p < with[j].len() && with[i][p] < #[trigger] with[j][p]
                    && forall|q: int| 0 <= q < p ==> with[i][q] == with[j][q];
            assert(a == seq![lo as usize] + with[i]);
            assert(b == seq![lo as usize] + with[j]);
            assert(a[p + 1] == with[i][p] && b[p + 1] == with[j][p]);
            assert forall|q: int| 0 <= q < p + 1 implies a[q] == b[q] by {
                if q > 0 {
                    assert(a[q] == with[i][q - 1] && b[q] == with[j][q - 1]);
                }
            }
            assert(a[p + 1] < b[p + 1]);
        } else if i < with.len() {
            lemma_index_combinations_shape(lo + 1, n, k, j - with.len());
            assert(a == seq![lo as usize] + with[i]);
            assert(b == without[j - with.len()]);
            assert(a[0] == lo);
            assert(a[0] < b[0]);
        } else {
            lemma_index_combinations_ordered(lo + 1, n, k, i - with.len(), j - with.len());
            assert(a == without[i - with.len()]);
            assert(b == without[j - with.len()]);
        }
    }
}

/// The hands that an enumeration has yet to yield, in the order in which it
/// will yield them.
pub uninterp spec fn remaining_hands(
    hands: itertools::Combinations<std::ops::Range<usize>>,
) -> Seq<Seq<usize>>;

#[verifier::external_type_specification]
#[verifier::external_body]
#[verifier::reject_recursive_types(I)]
pub struct ExCombinations<I: Iterator>(itertools::Combinations<I>);

/// Starts the enumeration of the hands of `k` cards out of a deck of `n`.
///
/// Calls `Itertools::combinations` on the range `0..n`. The adaptor yields the
/// `k`-element selections of its input by ascending positions, in
/// lexicographic order of the positions; over `0..n` a position and the value
/// at it are the same number. Where `k` is zero it yields one empty
/// selection.
#[verifier::external_body]
pub(crate) fn begin_hands(n: usize, k: usize) -> (hands: itertools::Combinations<
    std::ops::Range<usize>,
>)
    requires
        k <= n,
    ensures
        remaining_hands(hands) == index_combinations(0, n as nat, k as nat),
{
    itertools::Itertools::combinations(0..n, k)
}

/// Takes the next hand off the enumeration.
///
/// Calls `Iterator::next` of `itertools::Combinations`, which hands out the
/// selections one by one and, once it has returned `None`, keeps doing so.
#[verifier::external_body]
pub(crate) fn next_hand(hands: &mut itertools::Combinations<std::ops::Range<usize>>) -> (hand:
    Option<Vec<usize>>)
    ensures
        match hand {
            Some(places) => {
                &&& remaining_hands(*old(hands)).len() > 0
                &&& places@ == remaining_hands(*old(hands))[0]
                &&& remaining_hands(*final(hands)) == remaining_hands(*old(hands)).skip(1)
            },
            None => {
                &&& remaining_hands(*old(hands)).len() == 0
                &&& remaining_hands(*final(hands)) == remaining_hands(*old(hands))
            },
        },
{
    hands.next()
}

} // verus!
