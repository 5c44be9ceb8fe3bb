//! The exhaustive search: every possible hand is drawn and held against every
//! pattern.

use vstd::prelude::*;
use vstd::std_specs::cmp::PartialEqSpec;

pub mod choices;
pub mod counting;
pub mod counts;
pub mod deck;
pub mod engine;
pub mod enumeration;
pub mod matching;
pub mod names;

pub use counts::{all_hands, all_well_formed, counted_for_level, level_hits};
pub use counts::{lemma_level_hits_monotone, meets_pattern, pattern_hits, top_level};
pub use engine::{counts_of_search, search_outcome};

use crate::domain::{deck_size, Card, InitialPattern};
use crate::error::AppError;
use engine::search;
use matching::is_subsequence;

verus! {

/// Whether `pattern` can be read off `hands` from left to right.
///
/// Both are meant to be sorted the same way; the hand then holds every card
/// of the pattern, a card wanted twice at least twice. The cards are compared
/// with `==`, and the result is stated for types whose `==` has a meaning in
/// contracts.
pub fn lexicographical_superset<T: PartialEq>(hands: &[T], pattern: &[T]) -> (found: bool)
    ensures
        T::obeys_eq_spec() ==> found == is_subsequence(pattern@, hands@),
{
    if pattern.len() == 0 {
        return true;
    }
    let mut cursor: usize = 0;
    let mut i: usize = 0;
    proof {
        assert(pattern@.skip(0) =~= pattern@);
        assert(hands@.skip(0) =~= hands@);
    }
    while i < hands.len()
        invariant
            i <= hands.len(),
            cursor < pattern.len(),
            T::obeys_eq_spec() ==> is_subsequence(pattern@, hands@) == is_subsequence(
                pattern@.skip(cursor as int),
                hands@.skip(i as int),
            ),
        decreases hands.len() - i,
    {
        let ghost rest_pattern = pattern@.skip(cursor as int);
        let ghost rest_hands = hands@.skip(i as int);
        proof {
            assert(rest_hands.skip(1) =~= hands@.skip(i + 1));
            assert(rest_pattern.skip(1) =~= pattern@.skip(cursor + 1));
            assert(rest_hands[0] == hands@[i as int]);
            assert(rest_pattern[0] == pattern@[cursor as int]);
        }
        if hands[i] == pattern[cursor] {
            cursor = cursor + 1;
            if cursor == pattern.len() {
                proof {
                    if T::obeys_eq_spec() {
                        assert(is_subsequence(rest_pattern, rest_hands) == is_subsequence(
                            rest_pattern.skip(1),
                            rest_hands.skip(1),
                        ));
                        assert(rest_pattern.skip(1).len() == 0);
                    }
                }
                return true;
            }
            proof {
                if T::obeys_eq_spec() {
                    assert(is_subsequence(rest_pattern, rest_hands) == is_subsequence(
                        rest_pattern.skip(1),
                        rest_hands.skip(1),
                    ));
                }
            }
        } else {
            proof {
                if T::obeys_eq_spec() {
                    assert(is_subsequence(rest_pattern, rest_hands) == is_subsequence(
                        rest_pattern,
                        rest_hands.skip(1),
                    ));
                }
            }
        }
        i = i + 1;
    }
    proof {
        assert(hands@.skip(i as int).len() == 0);
    }
    false
}

/// The larger of two optional values, where a missing one counts as smaller
/// than any value.
pub fn op_max(x: Option<usize>, y: Option<usize>) -> (larger: Option<usize>)
    ensures
        larger == spec_op_max(x, y),
{
    match (x, y) {
        (Some(x), Some(y)) => Some(if x >= y {
            x
        } else {
            y
        }),
        (None, Some(y)) => Some(y),
        (Some(x), None) => Some(x),
        (None, None) => None,
    }
}

/// What [`op_max`] returns.
pub open spec fn spec_op_max(x: Option<usize>, y: Option<usize>) -> Option<usize> {
    match (x, y) {
        (Some(x), Some(y)) => Some(if x >= y {
            x
        } else {
            y
        }),
        (None, Some(y)) => Some(y),
        (Some(x), None) => Some(x),
        (None, None) => None,
    }
}

/// Told how far a search has come: once how many hands there are, then
/// after each hand how many have been looked at.
pub trait ProgressSink {
    /// The search is about to look at `total` hands.
    fn start(&mut self, total: u64);

    /// The search has looked at `seen` hands so far.
    fn advance(&mut self, seen: u64);
}

/// A sink that takes no notice.
pub struct NoProgress;

impl ProgressSink for NoProgress {
    fn start(&mut self, total: u64) {
    }

    fn advance(&mut self, seen: u64) {
    }
}

/// What a search counted.
#[derive(Debug, Clone, PartialEq, Eq)]
pub struct AllSearchCounts {
    /// For each pattern, the number of hands that meet it.
    pub pattern_hits: Vec<u64>,
    /// For each level from zero to the highest level of any pattern, the
    /// number of hands counted for that level.
    pub level_hits: Vec<u64>,
    /// The number of hands.
    pub total: u64,
}

/// Draws every hand of `draw_n` cards and holds each against every pattern.
///
/// A hand is a set of places of the deck laid out card by card, so that two
/// copies of a card are two different cards. A hand meets a pattern when, for
/// some choice of one alternative out of each group of the pattern, it holds
/// every card chosen, and a card chosen for two groups at least twice. Each
/// hand is counted for every pattern that it meets, and for every level from
/// zero up to the highest level of the patterns that it meets: the count of a
/// level never exceeds that of a lower level.
///
/// Fails where there is no pattern, where a pattern has a third group and no
/// second, and where the number of hands cannot be counted in 64 bits, which
/// includes a `draw_n` larger than the deck.
pub fn all_search_pattern<P: ProgressSink>(
    deck: &Vec<Card>,
    patterns: &Vec<InitialPattern>,
    draw_n: u64,
    progress: &mut P,
) -> (result: Result<AllSearchCounts, AppError>)
    requires
        deck_size(deck@) <= usize::MAX,
    ensures
        search_outcome(deck@, patterns@, draw_n, true, result),
        result matches Ok(counts) ==> forall|lower: int, higher: int|
            0 <= lower <= higher < counts.level_hits@.len() ==> counts.level_hits@[lower]
                >= counts.level_hits@[higher],
{
    let result = search(deck, patterns, draw_n, true, progress);
    proof {
        if result is Ok {
            let counts = result->Ok_0;
            assert forall|lower: int, higher: int|
                0 <= lower <= higher < counts.level_hits@.len() implies counts.level_hits@[lower]
                >= counts.level_hits@[higher] by {
                lemma_level_hits_monotone(
                    deck@,
                    patterns@,
                    all_hands(deck@, draw_n),
                    lower,
                    higher,
                );
            }
        }
    }
    result
}

/// The search of [`all_search_pattern`] with the other way of counting for
/// levels: each hand is counted for exactly the levels of the patterns that
/// it meets, and not for the levels below them.
pub fn all_search_pattern_exact_levels<P: ProgressSink>(
    deck: &Vec<Card>,
    patterns: &Vec<InitialPattern>,
    draw_n: u64,
    progress: &mut P,
) -> (result: Result<AllSearchCounts, AppError>)
    requires
        deck_size(deck@) <= usize::MAX,
    ensures
        search_outcome(deck@, patterns@, draw_n, false, result),
{
    search(deck, patterns, draw_n, false, progress)
}

} // verus!
