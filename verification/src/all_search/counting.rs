//! Counting the hands that hold no card of a set of names.

use super::deck::lemma_card_names_len;
use super::enumeration::index_combinations;
use crate::combinations::binomial;
use crate::domain::{card_names, copies_named, deck_size, Card};
use vstd::prelude::*;

verus! {

/// The hand drawn from `places` holds no card named in `names`.
pub open spec fn avoids(cards: Seq<Seq<char>>, places: Seq<usize>, names: Set<Seq<char>>) -> bool {
    forall|i: int| 0 <= i < places.len() ==> !names.contains(cards[#[trigger] places[i] as int])
}

/// How many of the hands hold no card named in `names`.
pub open spec fn count_avoiding(
    cards: Seq<Seq<char>>,
    hands: Seq<Seq<usize>>,
    names: Set<Seq<char>>,
) -> nat
    decreases hands.len(),
{
    if hands.len() == 0 {
        0
    } else {
        count_avoiding(cards, hands.drop_last(), names) + if avoids(cards, hands.last(), names) {
            1nat
        } else {
            0nat
        }
    }
}

/// How many of the cards bear none of the names.
pub open spec fn free_in(cards: Seq<Seq<char>>, names: Set<Seq<char>>) -> nat
    decreases cards.len(),
{
    if cards.len() == 0 {
        0
    } else {
        free_in(cards.skip(1), names) + if names.contains(cards[0]) {
            0nat
        } else {
            1nat
        }
    }
}

/// The hands of two lists are counted list by list.
pub proof fn lemma_count_avoiding_concat(
    cards: Seq<Seq<char>>,
    a: Seq<Seq<usize>>,
    b: Seq<Seq<usize>>,
    names: Set<Seq<char>>,
)
    ensures
        count_avoiding(cards, a + b, names) == count_avoiding(cards, a, names) + count_avoiding(
            cards,
            b,
            names,
        ),
    decreases b.len(),
{
    if b.len() == 0 {
        assert(a + b =~= a);
    } else {
        assert((a + b).drop_last() =~= a + b.drop_last());
        assert((a + b).last() == b.last());
        lemma_count_avoiding_concat(cards, a, b.drop_last(), names);
    }
}

/// With one more card put in front of every hand, the hands that avoid the
/// names are those that avoided them before, if the card does, and none
/// otherwise.
pub proof fn lemma_count_avoiding_prepended(
    cards: Seq<Seq<char>>,
    hands: Seq<Seq<usize>>,
    first: usize,
    names: Set<Seq<char>>,
)
    ensures
        count_avoiding(
            cards,
            hands.map_values(|tail: Seq<usize>| seq![first] + tail),
            names,
        ) == if names.contains(cards[first as int]) {
            0
        } else {
            count_avoiding(cards, hands, names)
        },
    decreases hands.len(),
{
    let put = |tail: Seq<usize>| seq![first] + tail;
    let longer = hands.map_values(put);
    if hands.len() > 0 {
        assert(longer.drop_last() =~= hands.drop_last().map_values(put));
        lemma_count_avoiding_prepended(cards, hands.drop_last(), first, names);
        let tail = hands.last();
        let hand = seq![first] + tail;
        assert(longer.last() == hand);
        if avoids(cards, hand, names) {
            assert(hand[0] == first);
            assert forall|i: int| 0 <= i < tail.len() implies !names.contains(
                cards[#[trigger] tail[i] as int],
            ) by {
                assert(hand[i + 1] == tail[i]);
            }
        }
        if !names.contains(cards[first as int]) && avoids(cards, tail, names) {
            assert forall|i: int| 0 <= i < hand.len() implies !names.contains(
                cards[#[trigger] hand[i] as int],
            ) by {
                if i > 0 {
                    assert(hand[i] == tail[i - 1]);
                }
            }
        }
    }
}

/// As many hands of `k` cards avoid the names as there are ways to choose
/// `k` of the cards that bear none of them.
pub proof fn lemma_count_avoiding_combinations(
    cards: Seq<Seq<char>>,
    lo: nat,
    k: nat,
    names: Set<Seq<char>>,
)
    requires
        lo <= cards.len() <= usize::MAX,
    ensures
        count_avoiding(cards, index_combinations(lo, cards.len(), k), names) == binomial(
            free_in(cards.skip(lo as int), names),
            k,
        ),
    decreases cards.len() - lo,
{
    let n = cards.len();
    let rest = cards.skip(lo as int);
    if k == 0 {
        let hands = index_combinations(lo, n, k);
        assert(hands.drop_last() =~= Seq::<Seq<usize>>::empty());
        assert(count_avoiding(cards, hands.drop_last(), names) == 0);
        assert(avoids(cards, hands.last(), names));
        assert(count_avoiding(cards, hands, names) == 1);
    } else if lo >= n {
        assert(rest =~= Seq::<Seq<char>>::empty());
        assert(binomial(0, k) == 0);
    } else {
        let with = index_combinations(lo + 1, n, (k - 1) as nat);
        let without = index_combinations(lo + 1, n, k);
        let put = |tail: Seq<usize>| seq![lo as usize] + tail;
        let first = lo as usize;
        let longer = with.map_values(|tail: Seq<usize>| seq![first] + tail);
        assert(with.map_values(put) =~= longer);
        assert(index_combinations(lo, n, k) =~= longer + without);
        lemma_count_avoiding_concat(cards, longer, without, names);
        lemma_count_avoiding_prepended(cards, with, first, names);
        lemma_count_avoiding_combinations(cards, lo + 1, (k - 1) as nat, names);
        lemma_count_avoiding_combinations(cards, lo + 1, k, names);
        assert(rest.skip(1) =~= cards.skip(lo as int + 1));
        assert(rest[0] == cards[lo as int]);
        let free = free_in(cards.skip(lo as int + 1), names);
        if names.contains(cards[lo as int]) {
            assert(free_in(rest, names) == free);
        } else {
            assert(free_in(rest, names) == free + 1);
            assert(binomial(free + 1, k) == binomial(free, (k - 1) as nat) + binomial(free, k));
        }
    }
}

/// The cards of two lists that bear none of the names are counted list by list.
pub proof fn lemma_free_in_concat(a: Seq<Seq<char>>, b: Seq<Seq<char>>, names: Set<Seq<char>>)
    ensures
        free_in(a + b, names) == free_in(a, names) + free_in(b, names),
    decreases a.len(),
{
    if a.len() == 0 {
        assert(a + b =~= b);
    } else {
        assert((a + b).skip(1) =~= a.skip(1) + b);
        lemma_free_in_concat(a.skip(1), b, names);
    }
}

/// Copies of one card bear none of the names all together or not at all.
pub proof fn lemma_free_in_copies(name: Seq<char>, copies: nat, names: Set<Seq<char>>)
    ensures
        free_in(Seq::new(copies, |i: int| name), names) == if names.contains(name) {
            0
        } else {
            copies
        },
    decreases copies,
{
    if copies > 0 {
        let all = Seq::new(copies, |i: int| name);
        assert(all.skip(1) =~= Seq::new((copies - 1) as nat, |i: int| name));
        lemma_free_in_copies(name, (copies - 1) as nat, names);
    }
}

/// The cards of a deck that bear none of the names are the cards of the deck
/// less the copies that bear one.
pub proof fn lemma_free_in_deck(deck: Seq<Card>, names: Set<Seq<char>>)
    ensures
        free_in(card_names(deck), names) + copies_named(deck, names) == deck_size(deck),
    decreases deck.len(),
{
    if deck.len() > 0 {
        let front = deck.drop_last();
        let last = deck.last();
        lemma_free_in_deck(front, names);
        lemma_free_in_concat(
            card_names(front),
            Seq::new(last.number as nat, |i: int| last.name@),
            names,
        );
        lemma_free_in_copies(last.name@, last.number as nat, names);
    }
}

/// Of all hands of `k` cards out of a deck, as many hold no card named in
/// `names` as there are ways to choose `k` of the other cards.
pub proof fn lemma_hands_avoiding(deck: Seq<Card>, k: nat, names: Set<Seq<char>>)
    requires
        deck_size(deck) <= usize::MAX,
    ensures
        copies_named(deck, names) <= deck_size(deck),
        count_avoiding(card_names(deck), index_combinations(0, deck_size(deck), k), names)
            == binomial((deck_size(deck) - copies_named(deck, names)) as nat, k),
{
    let cards = card_names(deck);
    lemma_card_names_len(deck);
    lemma_free_in_deck(deck, names);
    lemma_count_avoiding_combinations(cards, 0, k, names);
    assert(cards.skip(0) =~= cards);
}

} // verus!
