//! The deck and the initial patterns that are looked for in a hand.

use vstd::prelude::*;

pub mod counter_set;
pub mod data_structure;
pub mod string_or_list;

pub use string_or_list::StringOrList;

verus! {

/// One entry of a deck: a card name and the number of copies of it.
#[derive(Clone, PartialEq, Eq, Debug)]
pub struct Card {
    pub name: String,
    pub number: u8,
}

/// A named condition on a hand: one to three groups of interchangeable card
/// names, and the level that a hand reaches by meeting it.
#[derive(Clone, PartialEq, Eq, Debug, Hash)]
pub struct InitialPattern {
    pub name: String,
    pub first: StringOrList,
    pub second: Option<StringOrList>,
    pub third: Option<StringOrList>,
    pub level: u8,
}

impl InitialPattern {
    /// A pattern is well formed when it has no third group without a second.
    pub open spec fn well_formed(&self) -> bool {
        self.third is Some ==> self.second is Some
    }

    /// The groups of a well-formed pattern, each as the list of its
    /// alternative names.
    pub open spec fn groups(&self) -> Seq<Seq<Seq<char>>> {
        match (self.second, self.third) {
            (None, _) => seq![self.first.alternatives()],
            (Some(second), None) => seq![self.first.alternatives(), second.alternatives()],
            (Some(second), Some(third)) => seq![
                self.first.alternatives(),
                second.alternatives(),
                third.alternatives(),
            ],
        }
    }
}

/// The number of cards in a deck, copies counted.
pub open spec fn deck_size(deck: Seq<Card>) -> nat
    decreases deck.len(),
{
    if deck.len() == 0 {
        0
    } else {
        deck_size(deck.drop_last()) + deck.last().number as nat
    }
}

/// The number of cards in a deck whose name is one of `names`, copies counted.
pub open spec fn copies_named(deck: Seq<Card>, names: Set<Seq<char>>) -> nat
    decreases deck.len(),
{
    if deck.len() == 0 {
        0
    } else {
        copies_named(deck.drop_last(), names) + if names.contains(deck.last().name@) {
            deck.last().number as nat
        } else {
            0
        }
    }
}

/// The deck card by card: each name as often as the deck holds copies of it,
/// in the order of the deck.
pub open spec fn card_names(deck: Seq<Card>) -> Seq<Seq<char>>
    decreases deck.len(),
{
    if deck.len() == 0 {
        Seq::empty()
    } else {
        card_names(deck.drop_last()) + Seq::new(
            deck.last().number as nat,
            |i: int| deck.last().name@,
        )
    }
}

} // verus!
