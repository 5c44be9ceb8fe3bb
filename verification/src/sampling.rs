//! A deck to shuffle and to draw from.

use crate::all_search::matching::count_of;
use crate::domain::{card_names, Card};
use vstd::prelude::*;

verus! {

/// The characters of each name of a list of names.
pub open spec fn names_of_cards(cards: Seq<String>) -> Seq<Seq<char>> {
    Seq::new(cards.len(), |i: int| cards[i]@)
}

/// A deck card by card, and the hand drawn from it so far.
pub struct DeckInstance {
    /// The cards of the deck; the top of the deck is the last one.
    deck_names: Vec<String>,
    /// The cards drawn, in the order in which they were drawn.
    hands_names: Vec<String>,
}

/// Puts the cards in a random order.
///
/// Calls `SliceRandom::shuffle` of the slice with the generator of the
/// thread, which exchanges cards of the slice with one another: whatever
/// order comes out, it holds the cards that went in, each as often as before.
#[verifier::external_body]
fn shuffle_cards(cards: &mut Vec<String>)
    ensures
        final(cards)@.len() == old(cards)@.len(),
        forall|name: Seq<char>|
            count_of(names_of_cards(final(cards)@), name) == #[trigger] count_of(
                names_of_cards(old(cards)@),
                name,
            ),
{
    rand::seq::SliceRandom::shuffle(cards.as_mut_slice(), &mut rand::thread_rng());
}

impl DeckInstance {
    /// The names of the cards of the deck, the top of the deck last.
    pub closed spec fn deck_view(&self) -> Seq<Seq<char>> {
        names_of_cards(self.deck_names@)
    }

    /// The names of the cards drawn, in the order in which they were drawn.
    pub closed spec fn hands_view(&self) -> Seq<Seq<char>> {
        names_of_cards(self.hands_names@)
    }

    /// Lays the deck out card by card, in the order of its entries, with an
    /// empty hand.
    pub fn new(deck: &[Card]) -> (instance: Self)
        ensures
            instance.deck_view() == card_names(deck@),
            instance.hands_view() == Seq::<Seq<char>>::empty(),
    {
        let mut deck_names: Vec<String> = Vec::new();
        let mut i: usize = 0;
        assert(deck@.take(0) =~= Seq::<Card>::empty());
        assert(names_of_cards(deck_names@) =~= card_names(deck@.take(0)));
        while i < deck.len()
            invariant
                i <= deck.len(),
                names_of_cards(deck_names@) == card_names(deck@.take(i as int)),
            decreases deck.len() - i,
        {
            let card = &deck[i];
            let ghost front = card_names(deck@.take(i as int));
            let ghost name = card.name@;
            let mut copy: u8 = 0;
            assert(front + Seq::new(0, |c: int| name) =~= front);
            while copy < card.number
                invariant
                    copy <= card.number,
                    name == card.name@,
                    names_of_cards(deck_names@) == front + Seq::new(copy as nat, |c: int| name),
                decreases card.number - copy,
            {
                let ghost so_far = names_of_cards(deck_names@);
                deck_names.push(card.name.clone());
                copy = copy + 1;
                assert(names_of_cards(deck_names@) =~= so_far.push(name));
                assert(so_far.push(name) =~= front + Seq::new(copy as nat, |c: int| name));
            }
            proof {
                let next = deck@.take(i + 1);
                assert(next.drop_last() =~= deck@.take(i as int));
                assert(next.last() == deck@[i as int]);
                assert(card_names(next) =~= front + Seq::new(card.number as nat, |c: int| name));
            }
            i = i + 1;
        }
        assert(deck@.take(deck.len() as int) =~= deck@);
        let instance = DeckInstance { deck_names, hands_names: Vec::new() };
        assert(instance.hands_view() =~= Seq::<Seq<char>>::empty());
        instance
    }

    /// Shuffles the deck: afterwards it holds the same cards in some order.
    /// The hand stays as it is.
    pub fn shuffle(&mut self)
        ensures
            final(self).deck_view().len() == old(self).deck_view().len(),
            forall|name: Seq<char>|
                count_of(final(self).deck_view(), name) == #[trigger] count_of(
                    old(self).deck_view(),
                    name,
                ),
            final(self).hands_view() == old(self).hands_view(),
    {
        shuffle_cards(&mut self.deck_names);
    }

    /// Draws `draw_n` cards, one after the other from the top of the deck,
    /// into the hand.
    pub fn draw(&mut self, draw_n: usize)
        requires
            draw_n <= old(self).deck_view().len(),
        ensures
            final(self).deck_view() == old(self).deck_view().take(
                old(self).deck_view().len() - draw_n,
            ),
            final(self).hands_view() == old(self).hands_view() + old(self).deck_view().skip(
                old(self).deck_view().len() - draw_n,
            ).reverse(),
    {
        let ghost deck_before = self.deck_view();
        let ghost hand_before = self.hands_view();
        let ghost n = deck_before.len() as int;
        let mut drawn: usize = 0;
        assert(deck_before.take(n) =~= deck_before);
        assert(hand_before + deck_before.skip(n).reverse() =~= hand_before);
        while drawn < draw_n
            invariant
                drawn <= draw_n <= n,
                n == deck_before.len(),
                self.deck_view() == deck_before.take(n - drawn),
                self.hands_view() == hand_before + deck_before.skip(n - drawn).reverse(),
            decreases draw_n - drawn,
        {
            let deck_length: usize = self.deck_names.len();
            let ghost deck_now = self.deck_names@;
            let ghost hand_now = self.hands_names@;
            proof {
                assert(names_of_cards(deck_now).len() == deck_now.len());
                assert(deck_before.take(n - drawn).len() == n - drawn);
                assert(names_of_cards(deck_now)[n - drawn - 1] == deck_before[n - drawn - 1]);
            }
            let draw_card = self.deck_names.swap_remove(deck_length - 1);
            self.hands_names.push(draw_card);
            drawn = drawn + 1;
            proof {
                assert(self.deck_names@ =~= deck_now.drop_last());
                assert forall|i: int| 0 <= i < n - drawn implies self.deck_view()[i]
                    == deck_before[i] by {
                    assert(names_of_cards(deck_now)[i] == deck_before.take(n - drawn + 1)[i]);
                }
                assert(self.deck_view() =~= deck_before.take(n - drawn));
                assert(draw_card@ == deck_before[n - drawn]);
                assert(self.hands_names@ =~= hand_now.push(draw_card));
                let tail_before = deck_before.skip(n - drawn + 1).reverse();
                let tail_now = deck_before.skip(n - drawn).reverse();
                assert(tail_now =~= tail_before.push(deck_before[n - drawn]));
                assert(names_of_cards(hand_now) == hand_before + tail_before);
                assert(names_of_cards(hand_now.push(draw_card)) =~= names_of_cards(hand_now).push(
                    draw_card@,
                ));
                assert((hand_before + tail_before).push(deck_before[n - drawn]) =~= hand_before
                    + tail_now);
            }
        }
    }

    /// The cards of the deck, the top of the deck last.
    pub fn deck(&self) -> (cards: &[String])
        ensures
            names_of_cards(cards@) == self.deck_view(),
    {
        self.deck_names.as_slice()
    }

    /// The cards drawn, in the order in which they were drawn.
    pub fn hands(&self) -> (cards: &[String])
        ensures
            names_of_cards(cards@) == self.hands_view(),
    {
        self.hands_names.as_slice()
    }
}

} // verus!
