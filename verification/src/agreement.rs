//! Why the exact calculation and the exhaustive search count the same hands.

use crate::all_search::choices::{hand_meets, is_choice};
use crate::all_search::counting::{avoids, count_avoiding, lemma_hands_avoiding};
use crate::all_search::deck::names_at;
use crate::all_search::enumeration::lemma_index_combinations_len;
use crate::all_search::matching::{count_of, covers};
use crate::all_search::matching::{lemma_count_positive_has_index, lemma_index_has_count_positive};
use crate::all_search::{all_hands, pattern_hits};
use crate::combinations::{lemma_combination_value, spec_combination};
use crate::domain::{card_names, copies_named, deck_size, Card, InitialPattern};
use crate::probability::{hands_without, missing_hands, missing_one, missing_three, missing_two};
use vstd::prelude::*;

verus! {

/// The names of each group, as sets.
pub open spec fn sets_of(groups: Seq<Seq<Seq<char>>>) -> Seq<Set<Seq<char>>> {
    Seq::new(groups.len(), |g: int| groups[g].to_set())
}

/// No name stands in two of the groups.
pub open spec fn pairwise_disjoint(groups: Seq<Seq<Seq<char>>>) -> bool {
    forall|g: int, h: int, name: Seq<char>|
        0 <= g < h < groups.len() && #[trigger] groups[g].contains(name) ==> !#[trigger] groups[h].contains(
            name,
        )
}

/// The hand drawn from `places` holds, for each group, a card that bears one
/// of the names of the group.
pub open spec fn holds_each(
    cards: Seq<Seq<char>>,
    places: Seq<usize>,
    groups: Seq<Set<Seq<char>>>,
) -> bool {
    forall|g: int| 0 <= g < groups.len() ==> !avoids(cards, places, #[trigger] groups[g])
}

/// How many of the hands hold a card of each group.
pub open spec fn count_holding(
    cards: Seq<Seq<char>>,
    hands: Seq<Seq<usize>>,
    groups: Seq<Set<Seq<char>>>,
) -> nat
    decreases hands.len(),
{
    if hands.len() == 0 {
        0
    } else {
        count_holding(cards, hands.drop_last(), groups) + if holds_each(
            cards,
            hands.last(),
            groups,
        ) {
            1nat
        } else {
            0nat
        }
    }
}

/// No more hands hold a card of each group than there are hands.
pub proof fn lemma_count_holding_bounded(
    cards: Seq<Seq<char>>,
    hands: Seq<Seq<usize>>,
    groups: Seq<Set<Seq<char>>>,
)
    ensures
        count_holding(cards, hands, groups) <= hands.len(),
    decreases hands.len(),
{
    if hands.len() > 0 {
        lemma_count_holding_bounded(cards, hands.drop_last(), groups);
    }
}

/// A hand holds no card of two sets of names together exactly when it holds
/// none of either.
pub proof fn lemma_avoids_union(
    cards: Seq<Seq<char>>,
    places: Seq<usize>,
    a: Set<Seq<char>>,
    b: Set<Seq<char>>,
)
    ensures
        avoids(cards, places, a + b) <==> avoids(cards, places, a) && avoids(cards, places, b),
{
    if avoids(cards, places, a + b) {
        assert forall|i: int| 0 <= i < places.len() implies !a.contains(
            cards[#[trigger] places[i] as int],
        ) && !b.contains(cards[places[i] as int]) by {
            assert(!(a + b).contains(cards[places[i] as int]));
        }
    }
}

/// Inclusion and exclusion for one group: a hand holds a card of the group
/// or holds none.
pub proof fn lemma_count_holding_one(
    cards: Seq<Seq<char>>,
    hands: Seq<Seq<usize>>,
    a: Set<Seq<char>>,
)
    ensures
        count_holding(cards, hands, seq![a]) + count_avoiding(cards, hands, a) == hands.len(),
    decreases hands.len(),
{
    if hands.len() > 0 {
        lemma_count_holding_one(cards, hands.drop_last(), a);
        let groups = seq![a];
        let hand = hands.last();
        assert(groups[0] == a);
        assert(holds_each(cards, hand, groups) <==> !avoids(cards, hand, a));
    }
}

/// Inclusion and exclusion for two groups.
pub proof fn lemma_count_holding_two(
    cards: Seq<Seq<char>>,
    hands: Seq<Seq<usize>>,
    a: Set<Seq<char>>,
    b: Set<Seq<char>>,
)
    ensures
        count_holding(cards, hands, seq![a, b]) + count_avoiding(cards, hands, a) + count_avoiding(
            cards,
            hands,
            b,
        ) == hands.len() + count_avoiding(cards, hands, a + b),
    decreases hands.len(),
{
    if hands.len() > 0 {
        lemma_count_holding_two(cards, hands.drop_last(), a, b);
        let groups = seq![a, b];
        let hand = hands.last();
        assert(groups[0] == a && groups[1] == b);
        assert(holds_each(cards, hand, groups) <==> !avoids(cards, hand, a) && !avoids(
            cards,
            hand,
            b,
        ));
        lemma_avoids_union(cards, hand, a, b);
    }
}

/// Inclusion and exclusion for three groups.
pub proof fn lemma_count_holding_three(
    cards: Seq<Seq<char>>,
    hands: Seq<Seq<usize>>,
    a: Set<Seq<char>>,
    b: Set<Seq<char>>,
    c: Set<Seq<char>>,
)
    ensures
        count_holding(cards, hands, seq![a, b, c]) + count_avoiding(cards, hands, a)
            + count_avoiding(cards, hands, b) + count_avoiding(cards, hands, c) + count_avoiding(
            cards,
            hands,
            a + b + c,
        ) == hands.len() + count_avoiding(cards, hands, a + b) + count_avoiding(
            cards,
            hands,
            b + c,
        ) + count_avoiding(cards, hands, c + a),
    decreases hands.len(),
{
    if hands.len() > 0 {
        lemma_count_holding_three(cards, hands.drop_last(), a, b, c);
        let groups = seq![a, b, c];
        let hand = hands.last();
        assert(groups[0] == a && groups[1] == b && groups[2] == c);
        assert(holds_each(cards, hand, groups) <==> !avoids(cards, hand, a) && !avoids(
            cards,
            hand,
            b,
        ) && !avoids(cards, hand, c));
        lemma_avoids_union(cards, hand, a, b);
        lemma_avoids_union(cards, hand, b, c);
        lemma_avoids_union(cards, hand, c, a);
        lemma_avoids_union(cards, hand, a + b, c);
    }
}

/// A value stands at most once in a sequence whose values all differ.
pub proof fn lemma_count_of_distinct<A>(s: Seq<A>, x: A)
    requires
        forall|i: int, j: int| 0 <= i < j < s.len() ==> s[i] != s[j],
    ensures
        count_of(s, x) <= 1,
    decreases s.len(),
{
    if s.len() > 0 {
        let rest = s.skip(1);
        assert forall|i: int, j: int| 0 <= i < j < rest.len() implies rest[i] != rest[j] by {
            assert(rest[i] == s[i + 1] && rest[j] == s[j + 1]);
        }
        lemma_count_of_distinct(rest, x);
        if s[0] == x && count_of(rest, x) > 0 {
            lemma_count_positive_has_index(rest, x);
            let i = choose|i: int| 0 <= i < rest.len() && rest[i] == x;
            assert(s[i + 1] == x);
        }
    }
}

/// Where no name stands in two groups, a hand meets the groups exactly when
/// it holds a card of each.
pub proof fn lemma_meets_is_holding_each(
    cards: Seq<Seq<char>>,
    places: Seq<usize>,
    groups: Seq<Seq<Seq<char>>>,
)
    requires
        pairwise_disjoint(groups),
    ensures
        hand_meets(groups, names_at(cards, places)) <==> holds_each(cards, places, sets_of(groups)),
{
    let hand = names_at(cards, places);
    let sets = sets_of(groups);
    if hand_meets(groups, hand) {
        let choice = choose|choice: Seq<Seq<char>>| #[trigger]
            is_choice(groups, choice) && covers(hand, choice);
        assert forall|g: int| 0 <= g < sets.len() implies !avoids(
            cards,
            places,
            #[trigger] sets[g],
        ) by {
            assert(groups[g].contains(choice[g]));
            lemma_index_has_count_positive(choice, g);
            assert(count_of(choice, choice[g]) <= count_of(hand, choice[g]));
            lemma_count_positive_has_index(hand, choice[g]);
            let i = choose|i: int| 0 <= i < hand.len() && hand[i] == choice[g];
            assert(sets[g].contains(cards[places[i] as int]));
        }
    }
    if holds_each(cards, places, sets) {
        let at = |g: int|
            choose|i: int|
                0 <= i < places.len() && sets[g].contains(cards[#[trigger] places[i] as int]);
        let choice = Seq::new(groups.len(), |g: int| cards[places[at(g)] as int]);
        assert forall|g: int| 0 <= g < groups.len() implies 0 <= at(g) < places.len()
            && (#[trigger] groups[g]).contains(choice[g]) by {
            assert(!avoids(cards, places, sets[g]));
        }
        assert(is_choice(groups, choice));
        assert forall|g: int, h: int| 0 <= g < h < choice.len() implies choice[g]
            != choice[h] by {
            assert(groups[g].contains(choice[g]));
            assert(groups[h].contains(choice[h]));
        }
        assert forall|x: Seq<char>| count_of(choice, x) <= #[trigger] count_of(hand, x) by {
            if count_of(choice, x) > 0 {
                lemma_count_of_distinct(choice, x);
                lemma_count_positive_has_index(choice, x);
                let g = choose|g: int| 0 <= g < choice.len() && choice[g] == x;
                assert(groups[g].contains(choice[g]));
                assert(hand[at(g)] == x);
                lemma_index_has_count_positive(hand, at(g));
            }
        }
        assert(is_choice(groups, choice) && covers(hand, choice));
    }
}

/// Where no name stands in two groups of the pattern, the hands that meet the
/// pattern are the hands that hold a card of each group.
pub proof fn lemma_pattern_hits_is_count_holding(
    deck: Seq<Card>,
    pattern: InitialPattern,
    hands: Seq<Seq<usize>>,
)
    requires
        pairwise_disjoint(pattern.groups()),
    ensures
        pattern_hits(deck, pattern, hands) == count_holding(
            card_names(deck),
            hands,
            sets_of(pattern.groups()),
        ),
    decreases hands.len(),
{
    if hands.len() > 0 {
        lemma_pattern_hits_is_count_holding(deck, pattern, hands.drop_last());
        lemma_meets_is_holding_each(card_names(deck), hands.last(), pattern.groups());
    }
}

/// What the exact calculation counts for one group: the hands that hold a
/// card of the group are all hands less the hands counted as missing it.
pub proof fn lemma_exact_one(deck: Seq<Card>, a: Set<Seq<char>>, draw_n: u64)
    requires
        deck_size(deck) <= usize::MAX,
        spec_combination(deck_size(deck) as u64, draw_n) is Some,
        missing_one(deck, a, draw_n) is Some,
    ensures
        count_holding(card_names(deck), all_hands(deck, draw_n), seq![a]) == spec_combination(
            deck_size(deck) as u64,
            draw_n,
        )->0 - missing_one(deck, a, draw_n)->0,
        0 <= missing_one(deck, a, draw_n)->0 <= spec_combination(
            deck_size(deck) as u64,
            draw_n,
        )->0,
{
    let cards = card_names(deck);
    let hands = all_hands(deck, draw_n);
    lemma_index_combinations_len(0, deck_size(deck), draw_n as nat);
    lemma_combination_value(deck_size(deck) as u64, draw_n);
    lemma_count_holding_bounded(cards, hands, seq![a]);
    lemma_without(deck, draw_n, a);
    lemma_count_holding_one(cards, hands, a);
}

/// What the exact calculation counts for two groups: the hands that hold a
/// card of each group are all hands less the hands counted as missing one.
pub proof fn lemma_exact_two(deck: Seq<Card>, a: Set<Seq<char>>, b: Set<Seq<char>>, draw_n: u64)
    requires
        deck_size(deck) <= usize::MAX,
        spec_combination(deck_size(deck) as u64, draw_n) is Some,
        missing_two(deck, a, b, draw_n) is Some,
    ensures
        count_holding(card_names(deck), all_hands(deck, draw_n), seq![a, b]) == spec_combination(
            deck_size(deck) as u64,
            draw_n,
        )->0 - missing_two(deck, a, b, draw_n)->0,
        0 <= missing_two(deck, a, b, draw_n)->0 <= spec_combination(
            deck_size(deck) as u64,
            draw_n,
        )->0,
{
    let cards = card_names(deck);
    let hands = all_hands(deck, draw_n);
    lemma_index_combinations_len(0, deck_size(deck), draw_n as nat);
    lemma_combination_value(deck_size(deck) as u64, draw_n);
    lemma_count_holding_bounded(cards, hands, seq![a, b]);
    lemma_without(deck, draw_n, a);
    lemma_without(deck, draw_n, b);
    lemma_without(deck, draw_n, a + b);
    lemma_count_holding_two(cards, hands, a, b);
}

/// What the exact calculation counts for three groups: the hands that hold
/// a card of each group are all hands less the hands counted as missing one.
pub proof fn lemma_exact_three(
    deck: Seq<Card>,
    a: Set<Seq<char>>,
    b: Set<Seq<char>>,
    c: Set<Seq<char>>,
    draw_n: u64,
)
    requires
        deck_size(deck) <= usize::MAX,
        spec_combination(deck_size(deck) as u64, draw_n) is Some,
        missing_three(deck, a, b, c, draw_n) is Some,
    ensures
        count_holding(card_names(deck), all_hands(deck, draw_n), seq![a, b, c])
            == spec_combination(deck_size(deck) as u64, draw_n)->0 - missing_three(
            deck,
            a,
            b,
            c,
            draw_n,
        )->0,
        0 <= missing_three(deck, a, b, c, draw_n)->0 <= spec_combination(
            deck_size(deck) as u64,
            draw_n,
        )->0,
{
    let cards = card_names(deck);
    let hands = all_hands(deck, draw_n);
    lemma_index_combinations_len(0, deck_size(deck), draw_n as nat);
    lemma_combination_value(deck_size(deck) as u64, draw_n);
    lemma_count_holding_bounded(cards, hands, seq![a, b, c]);
    lemma_without(deck, draw_n, a);
    lemma_without(deck, draw_n, b);
    lemma_without(deck, draw_n, c);
    lemma_without(deck, draw_n, a + b);
    lemma_without(deck, draw_n, b + c);
    lemma_without(deck, draw_n, c + a);
    lemma_without(deck, draw_n, a + b + c);
    lemma_count_holding_three(cards, hands, a, b, c);
}

/// What the exact calculation counts: the hands that hold a card of each
/// group of the pattern are all hands less the hands that inclusion and
/// exclusion count as missing a group. So these are never more than all
/// hands, and never fewer than none.
pub proof fn lemma_exact_counts_hands_holding(deck: Seq<Card>, pattern: InitialPattern, draw_n: u64)
    requires
        pattern.well_formed(),
        deck_size(deck) <= usize::MAX,
        spec_combination(deck_size(deck) as u64, draw_n) is Some,
        missing_hands(deck, pattern, draw_n) is Some,
    ensures
        count_holding(card_names(deck), all_hands(deck, draw_n), sets_of(pattern.groups()))
            == spec_combination(deck_size(deck) as u64, draw_n)->0 - missing_hands(
            deck,
            pattern,
            draw_n,
        )->0,
        0 <= missing_hands(deck, pattern, draw_n)->0 <= spec_combination(
            deck_size(deck) as u64,
            draw_n,
        )->0,
{
    let sets = sets_of(pattern.groups());
    let a = pattern.first.alternatives().to_set();
    match (pattern.second, pattern.third) {
        (None, _) => {
            assert(sets =~= seq![a]);
            lemma_exact_one(deck, a, draw_n);
        },
        (Some(second), None) => {
            let b = second.alternatives().to_set();
            assert(sets =~= seq![a, b]);
            lemma_exact_two(deck, a, b, draw_n);
        },
        (Some(second), Some(third)) => {
            let b = second.alternatives().to_set();
            let c = third.alternatives().to_set();
            assert(sets =~= seq![a, b, c]);
            lemma_exact_three(deck, a, b, c, draw_n);
        },
    }
}

/// Where the number of hands without a set of names has been counted, it is
/// the number of hands of the search that hold no card of the set.
pub proof fn lemma_without(deck: Seq<Card>, draw_n: u64, names: Set<Seq<char>>)
    requires
        deck_size(deck) <= usize::MAX,
    ensures
        hands_without(deck, names, draw_n) matches Some(w) ==> w == count_avoiding(
            card_names(deck),
            all_hands(deck, draw_n),
            names,
        ),
{
    lemma_hands_avoiding(deck, draw_n as nat, names);
    lemma_combination_value((deck_size(deck) - copies_named(deck, names)) as u64, draw_n);
}

/// The exact calculation and the exhaustive search agree: where no name
/// stands in two groups of a pattern, and the exact calculation has a
/// result, the search finds as many hands that meet the pattern as the exact
/// calculation counts, out of as many hands.
pub proof fn lemma_search_agrees_with_exact(deck: Seq<Card>, pattern: InitialPattern, draw_n: u64)
    requires
        pattern.well_formed(),
        pairwise_disjoint(pattern.groups()),
        deck_size(deck) <= usize::MAX,
        spec_combination(deck_size(deck) as u64, draw_n) is Some,
        missing_hands(deck, pattern, draw_n) is Some,
    ensures
        all_hands(deck, draw_n).len() == spec_combination(deck_size(deck) as u64, draw_n)->0,
        pattern_hits(deck, pattern, all_hands(deck, draw_n)) == spec_combination(
            deck_size(deck) as u64,
            draw_n,
        )->0 - missing_hands(deck, pattern, draw_n)->0,
{
    lemma_exact_counts_hands_holding(deck, pattern, draw_n);
    lemma_pattern_hits_is_count_holding(deck, pattern, all_hands(deck, draw_n));
    lemma_index_combinations_len(0, deck_size(deck), draw_n as nat);
    lemma_combination_value(deck_size(deck) as u64, draw_n);
}

} // verus!
