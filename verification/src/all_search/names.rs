//! Card names as numbers: each name is known by the place of the first deck
//! entry that bears it.

use super::matching::{count_of, covers};
use super::matching::{lemma_count_positive_has_index, lemma_index_has_count_positive};
use crate::domain::Card;
use vstd::prelude::*;

verus! {

/// The names of the entries of a deck, in the order of the deck.
pub open spec fn entry_names(deck: Seq<Card>) -> Seq<Seq<char>> {
    Seq::new(deck.len(), |i: int| deck[i].name@)
}

/// The number that stands for `name`: the place of the first entry of that
/// name, or the number of entries where no entry bears it.
pub open spec fn name_id(entries: Seq<Seq<char>>, name: Seq<char>) -> nat
    decreases entries.len(),
{
    if entries.len() == 0 {
        0
    } else if entries[0] == name {
        0
    } else {
        1 + name_id(entries.skip(1), name)
    }
}

/// The numbers that stand for a list of names.
pub open spec fn ids_of(entries: Seq<Seq<char>>, names: Seq<Seq<char>>) -> Seq<usize> {
    Seq::new(names.len(), |i: int| name_id(entries, names[i]) as usize)
}

/// The number of a name is the first place at which the name stands.
pub proof fn lemma_name_id_first(entries: Seq<Seq<char>>, name: Seq<char>, at: int)
    requires
        0 <= at <= entries.len(),
        forall|j: int| 0 <= j < at ==> entries[j] != name,
        at < entries.len() ==> entries[at] == name,
    ensures
        name_id(entries, name) == at,
    decreases at,
{
    if at > 0 {
        let rest = entries.skip(1);
        assert forall|j: int| 0 <= j < at - 1 implies rest[j] != name by {
            assert(rest[j] == entries[j + 1]);
        }
        if at < entries.len() {
            assert(rest[at - 1] == entries[at]);
        }
        lemma_name_id_first(rest, name, at - 1);
    }
}

/// The number of a name is a place of the list exactly when the name stands
/// in the list, and the name stands at that place.
pub proof fn lemma_name_id_bounds(entries: Seq<Seq<char>>, name: Seq<char>)
    ensures
        name_id(entries, name) <= entries.len(),
        name_id(entries, name) < entries.len() ==> entries[name_id(entries, name) as int] == name,
        name_id(entries, name) < entries.len() <==> entries.contains(name),
    decreases entries.len(),
{
    if entries.len() == 0 {
    } else if entries[0] == name {
    } else {
        let rest = entries.skip(1);
        lemma_name_id_bounds(rest, name);
        let id = name_id(rest, name);
        if id < rest.len() {
            assert(entries[id as int + 1] == rest[id as int]);
        }
        if entries.contains(name) {
            let w = choose|w: int| 0 <= w < entries.len() && entries[w] == name;
            assert(rest[w - 1] == name);
        }
    }
}

/// Two names of the list with the same number are the same name.
pub proof fn lemma_name_id_injective(entries: Seq<Seq<char>>, a: Seq<char>, b: Seq<char>)
    requires
        name_id(entries, a) == name_id(entries, b),
        name_id(entries, a) < entries.len(),
    ensures
        a == b,
{
    lemma_name_id_bounds(entries, a);
    lemma_name_id_bounds(entries, b);
}

/// A name of the list stands in a sequence as often as its number stands in
/// the numbers of the sequence.
pub proof fn lemma_count_of_ids(entries: Seq<Seq<char>>, names: Seq<Seq<char>>, x: Seq<char>)
    requires
        entries.len() <= usize::MAX,
        entries.contains(x),
    ensures
        count_of(ids_of(entries, names), name_id(entries, x) as usize) == count_of(names, x),
    decreases names.len(),
{
    lemma_name_id_bounds(entries, x);
    if names.len() > 0 {
        let rest = names.skip(1);
        assert(ids_of(entries, names).skip(1) =~= ids_of(entries, rest));
        lemma_count_of_ids(entries, rest, x);
        lemma_name_id_bounds(entries, names[0]);
        assert(ids_of(entries, names)[0] == name_id(entries, names[0]) as usize);
        if name_id(entries, names[0]) == name_id(entries, x) {
            lemma_name_id_injective(entries, names[0], x);
        }
    }
}

/// With every card of the hand taken from the list, the hand holds the cards
/// wanted exactly when the numbers of the hand hold the numbers of the cards
/// wanted.
pub proof fn lemma_covers_by_ids(
    entries: Seq<Seq<char>>,
    hand: Seq<Seq<char>>,
    wanted: Seq<Seq<char>>,
)
    requires
        entries.len() <= usize::MAX,
        forall|i: int| 0 <= i < hand.len() ==> entries.contains(#[trigger] hand[i]),
    ensures
        covers(hand, wanted) <==> covers(ids_of(entries, hand), ids_of(entries, wanted)),
{
    let hand_ids = ids_of(entries, hand);
    let wanted_ids = ids_of(entries, wanted);
    if covers(hand, wanted) {
        assert forall|v: usize| count_of(wanted_ids, v) <= #[trigger] count_of(hand_ids, v) by {
            if count_of(wanted_ids, v) > 0 {
                lemma_count_positive_has_index(wanted_ids, v);
                let j = choose|j: int| 0 <= j < wanted_ids.len() && wanted_ids[j] == v;
                let x = wanted[j];
                lemma_name_id_bounds(entries, x);
                lemma_index_has_count_positive(wanted, j);
                assert(count_of(wanted, x) <= count_of(hand, x));
                lemma_count_positive_has_index(hand, x);
                let i = choose|i: int| 0 <= i < hand.len() && hand[i] == x;
                assert(entries.contains(hand[i]));
                lemma_count_of_ids(entries, hand, x);
                lemma_count_of_ids(entries, wanted, x);
            }
        }
    }
    if covers(hand_ids, wanted_ids) {
        assert forall|x: Seq<char>| count_of(wanted, x) <= #[trigger] count_of(hand, x) by {
            if count_of(wanted, x) > 0 {
                lemma_count_positive_has_index(wanted, x);
                let j = choose|j: int| 0 <= j < wanted.len() && wanted[j] == x;
                lemma_name_id_bounds(entries, x);
                let v = name_id(entries, x) as usize;
                assert(wanted_ids[j] == v);
                lemma_index_has_count_positive(wanted_ids, j);
                assert(count_of(wanted_ids, v) <= count_of(hand_ids, v));
                lemma_count_positive_has_index(hand_ids, v);
                let i = choose|i: int| 0 <= i < hand_ids.len() && hand_ids[i] == v;
                assert(entries.contains(hand[i]));
                lemma_name_id_bounds(entries, hand[i]);
                assert(name_id(entries, hand[i]) == name_id(entries, x));
                lemma_name_id_injective(entries, hand[i], x);
                lemma_count_of_ids(entries, hand, x);
                lemma_count_of_ids(entries, wanted, x);
            }
        }
    }
}

/// Finds the number that stands for `name` in `deck`.
pub fn card_id(deck: &Vec<Card>, name: &String) -> (id: usize)
    ensures
        id == name_id(entry_names(deck@), name@),
{
    let mut i: usize = 0;
    while i < deck.len()
        invariant
            i <= deck.len(),
            forall|j: int| 0 <= j < i ==> entry_names(deck@)[j] != name@,
        decreases deck.len() - i,
    {
        if deck[i].name == *name {
            proof {
                lemma_name_id_first(entry_names(deck@), name@, i as int);
            }
            return i;
        }
        i = i + 1;
    }
    proof {
        lemma_name_id_first(entry_names(deck@), name@, i as int);
    }
    i
}

} // verus!
