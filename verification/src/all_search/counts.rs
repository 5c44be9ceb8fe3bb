//! What a search counts: for each pattern and for each level, the hands
//! that are counted for it.

use super::choices::hand_meets;
use super::deck::names_at;
use super::enumeration::index_combinations;
use crate::domain::{card_names, deck_size, Card, InitialPattern};
use vstd::prelude::*;

verus! {

/// The hand drawn from the given places of the deck meets the pattern.
pub open spec fn meets_pattern(deck: Seq<Card>, pattern: InitialPattern, places: Seq<usize>) -> bool {
    hand_meets(pattern.groups(), names_at(card_names(deck), places))
}

/// The hand meets the pattern, as a number: one if it does, zero if not.
pub open spec fn hit(deck: Seq<Card>, pattern: InitialPattern, places: Seq<usize>) -> nat {
    if meets_pattern(deck, pattern, places) {
        1
    } else {
        0
    }
}

/// The level of a pattern counts for `level`: under the cumulative policy a
/// pattern counts for its own level and for every level below it, otherwise
/// for its own level alone.
pub open spec fn level_counts_for(own: u8, level: int, cumulative: bool) -> bool {
    if cumulative {
        own >= level
    } else {
        own == level
    }
}

/// The hand drawn from the given places is counted for `level`: it meets a
/// pattern whose level counts for it.
pub open spec fn counted_for_level(
    deck: Seq<Card>,
    patterns: Seq<InitialPattern>,
    places: Seq<usize>,
    level: int,
    cumulative: bool,
) -> bool {
    exists|p: int|
        0 <= p < patterns.len() && level_counts_for(patterns[p].level, level, cumulative)
            && #[trigger] meets_pattern(deck, patterns[p], places)
}

/// How many of the hands meet the pattern.
pub open spec fn pattern_hits(
    deck: Seq<Card>,
    pattern: InitialPattern,
    hands: Seq<Seq<usize>>,
) -> nat
    decreases hands.len(),
{
    if hands.len() == 0 {
        0
    } else {
        pattern_hits(deck, pattern, hands.drop_last()) + if meets_pattern(
            deck,
            pattern,
            hands.last(),
        ) {
            1nat
        } else {
            0nat
        }
    }
}

/// How many of the hands are counted for `level`.
pub open spec fn level_hits(
    deck: Seq<Card>,
    patterns: Seq<InitialPattern>,
    hands: Seq<Seq<usize>>,
    level: int,
    cumulative: bool,
) -> nat
    decreases hands.len(),
{
    if hands.len() == 0 {
        0
    } else {
        level_hits(deck, patterns, hands.drop_last(), level, cumulative) + if counted_for_level(
            deck,
            patterns,
            hands.last(),
            level,
            cumulative,
        ) {
            1nat
        } else {
            0nat
        }
    }
}

/// The highest level of any of the patterns; zero without patterns.
pub open spec fn top_level(patterns: Seq<InitialPattern>) -> int
    decreases patterns.len(),
{
    if patterns.len() == 0 {
        0
    } else if patterns.last().level >= top_level(patterns.drop_last()) {
        patterns.last().level as int
    } else {
        top_level(patterns.drop_last())
    }
}

/// Every pattern is well formed.
pub open spec fn all_well_formed(patterns: Seq<InitialPattern>) -> bool {
    forall|p: int| 0 <= p < patterns.len() ==> (#[trigger] patterns[p]).well_formed()
}

/// Every hand of `draw_n` cards out of the deck, as the places of its cards,
/// in the order in which the search looks at them.
pub open spec fn all_hands(deck: Seq<Card>, draw_n: u64) -> Seq<Seq<usize>> {
    index_combinations(0, deck_size(deck), draw_n as nat)
}

/// The highest level is a level.
pub proof fn lemma_top_level_range(patterns: Seq<InitialPattern>)
    ensures
        0 <= top_level(patterns) <= u8::MAX,
    decreases patterns.len(),
{
    if patterns.len() > 0 {
        lemma_top_level_range(patterns.drop_last());
    }
}

/// No pattern has a level above the highest level.
pub proof fn lemma_top_level_bounds(patterns: Seq<InitialPattern>, p: int)
    requires
        0 <= p < patterns.len(),
    ensures
        patterns[p].level <= top_level(patterns),
    decreases patterns.len(),
{
    lemma_top_level_range(patterns.drop_last());
    if p < patterns.len() - 1 {
        lemma_top_level_bounds(patterns.drop_last(), p);
    }
}

/// No more hands meet a pattern than there are hands.
pub proof fn lemma_pattern_hits_bounded(
    deck: Seq<Card>,
    pattern: InitialPattern,
    hands: Seq<Seq<usize>>,
)
    ensures
        pattern_hits(deck, pattern, hands) <= hands.len(),
    decreases hands.len(),
{
    if hands.len() > 0 {
        lemma_pattern_hits_bounded(deck, pattern, hands.drop_last());
    }
}

/// No more hands are counted for a level than there are hands.
pub proof fn lemma_level_hits_bounded(
    deck: Seq<Card>,
    patterns: Seq<InitialPattern>,
    hands: Seq<Seq<usize>>,
    level: int,
    cumulative: bool,
)
    ensures
        level_hits(deck, patterns, hands, level, cumulative) <= hands.len(),
    decreases hands.len(),
{
    if hands.len() > 0 {
        lemma_level_hits_bounded(deck, patterns, hands.drop_last(), level, cumulative);
    }
}

/// Under the cumulative policy, the higher the level, the fewer hands are
/// counted for it: a hand that is counted for a level is counted for every
/// level below it.
pub proof fn lemma_level_hits_monotone(
    deck: Seq<Card>,
    patterns: Seq<InitialPattern>,
    hands: Seq<Seq<usize>>,
    lower: int,
    higher: int,
)
    requires
        lower <= higher,
    ensures
        level_hits(deck, patterns, hands, lower, true) >= level_hits(
            deck,
            patterns,
            hands,
            higher,
            true,
        ),
    decreases hands.len(),
{
    if hands.len() > 0 {
        lemma_level_hits_monotone(deck, patterns, hands.drop_last(), lower, higher);
        if counted_for_level(deck, patterns, hands.last(), higher, true) {
            let p = choose|p: int|
                0 <= p < patterns.len() && level_counts_for(patterns[p].level, higher, true)
                    && #[trigger] meets_pattern(deck, patterns[p], hands.last());
            assert(level_counts_for(patterns[p].level, lower, true) && meets_pattern(
                deck,
                patterns[p],
                hands.last(),
            ));
        }
    }
}

} // verus!
