//! The deck laid out card by card, and the hands drawn from it.

use super::names::{card_id, entry_names, ids_of, lemma_name_id_bounds, name_id};
use crate::domain::{card_names, deck_size, Card};
use vstd::prelude::*;

verus! {

/// The deck laid out card by card has as many cards as the deck counts.
pub proof fn lemma_card_names_len(deck: Seq<Card>)
    ensures
        card_names(deck).len() == deck_size(deck),
    decreases deck.len(),
{
    if deck.len() > 0 {
        lemma_card_names_len(deck.drop_last());
    }
}

/// Every card of the deck bears the name of an entry of the deck.
pub proof fn lemma_card_names_known(deck: Seq<Card>, at: int)
    requires
        0 <= at < card_names(deck).len(),
    ensures
        entry_names(deck).contains(card_names(deck)[at]),
    decreases deck.len(),
{
    let front = deck.drop_last();
    if at < card_names(front).len() {
        lemma_card_names_known(front, at);
        let w = choose|w: int|
            0 <= w < entry_names(front).len() && entry_names(front)[w] == card_names(front)[at];
        assert(entry_names(deck)[w] == card_names(deck)[at]);
    } else {
        assert(entry_names(deck)[deck.len() - 1] == card_names(deck)[at]);
    }
}

/// The names of the cards at the given places of the deck, card by card.
pub open spec fn names_at(cards: Seq<Seq<char>>, places: Seq<usize>) -> Seq<Seq<char>> {
    Seq::new(places.len(), |i: int| cards[places[i] as int])
}

/// Every place is a place of a deck of `n` cards.
pub open spec fn places_within(places: Seq<usize>, n: nat) -> bool {
    forall|i: int| 0 <= i < places.len() ==> #[trigger] places[i] < n
}

/// Lays the deck out card by card, each card as the number of its name.
pub fn expand_deck(deck: &Vec<Card>) -> (cards: Vec<usize>)
    ensures
        cards@ == ids_of(entry_names(deck@), card_names(deck@)),
        cards@.len() == deck_size(deck@),
{
    let ghost entries = entry_names(deck@);
    let mut cards: Vec<usize> = Vec::new();
    let mut i: usize = 0;
    assert(deck@.take(0) =~= Seq::<Card>::empty());
    assert(cards@ =~= ids_of(entries, card_names(deck@.take(0))));
    while i < deck.len()
        invariant
            i <= deck.len(),
            entries == entry_names(deck@),
            cards@ == ids_of(entries, card_names(deck@.take(i as int))),
        decreases deck.len() - i,
    {
        let id: usize = card_id(deck, &deck[i].name);
        let number: u8 = deck[i].number;
        let ghost front = card_names(deck@.take(i as int));
        let ghost name = deck@[i as int].name@;
        proof {
            lemma_name_id_bounds(entries, name);
        }
        let mut copy: u8 = 0;
        assert(front + Seq::new(0, |c: int| name) =~= front);
        while copy < number
            invariant
                copy <= number,
                id == name_id(entries, name),
                cards@ == ids_of(entries, front + Seq::new(copy as nat, |c: int| name)),
            decreases number - copy,
        {
            let ghost so_far = front + Seq::new(copy as nat, |c: int| name);
            cards.push(id);
            copy = copy + 1;
            proof {
                let now = front + Seq::new(copy as nat, |c: int| name);
                assert(now =~= so_far.push(name));
                assert(cards@ =~= ids_of(entries, now));
            }
        }
        proof {
            let next = deck@.take(i + 1);
            assert(next.drop_last() =~= deck@.take(i as int));
            assert(next.last() == deck@[i as int]);
            assert(card_names(next) =~= front + Seq::new(number as nat, |c: int| name));
        }
        i = i + 1;
    }
    proof {
        assert(deck@.take(deck.len() as int) =~= deck@);
        lemma_card_names_len(deck@);
    }
    cards
}

/// The numbers of the cards at the given places of the laid-out deck.
pub fn cards_at(cards: &Vec<usize>, places: &Vec<usize>) -> (hand: Vec<usize>)
    requires
        places_within(places@, cards@.len()),
    ensures
        hand@.len() == places@.len(),
        forall|i: int| 0 <= i < places@.len() ==> hand@[i] == cards@[places@[i] as int],
{
    let mut hand: Vec<usize> = Vec::new();
    let mut i: usize = 0;
    while i < places.len()
        invariant
            i <= places.len(),
            hand.len() == i,
            places_within(places@, cards@.len()),
            forall|j: int| 0 <= j < i ==> hand@[j] == cards@[places@[j] as int],
        decreases places.len() - i,
    {
        let place: usize = places[i];
        hand.push(cards[place]);
        i = i + 1;
    }
    hand
}

} // verus!
