//! The search itself: the hands are taken one by one off the enumeration and
//! held against every pattern.

use super::choices::{lemma_choice_within_is_meeting, same_counts};
use super::choices::{meets_some_choice, pattern_choices, rows, sort_ids, stands_for};
use super::counts::{all_hands, all_well_formed, counted_for_level, hit, level_counts_for};
use super::counts::{lemma_level_hits_bounded, lemma_pattern_hits_bounded};
use super::counts::{lemma_top_level_bounds, lemma_top_level_range};
use super::counts::{level_hits, meets_pattern, pattern_hits, top_level};
use super::deck::{cards_at, expand_deck, lemma_card_names_known, names_at, places_within};
use super::enumeration::{begin_hands, index_combinations, next_hand, remaining_hands};
use super::enumeration::{lemma_index_combinations_len, lemma_index_combinations_shape};
use super::matching::ascending;
use super::names::{entry_names, ids_of};
use super::{op_max, AllSearchCounts, ProgressSink};
use crate::combinations::{combination_n, lemma_combination_value, spec_combination};
use crate::domain::{card_names, deck_size, Card, InitialPattern};
use crate::error::AppError;
use vstd::prelude::*;

verus! {

/// The highest level of any of the patterns; zero without patterns.
pub fn highest_level(patterns: &Vec<InitialPattern>) -> (level: u8)
    ensures
        level == top_level(patterns@),
{
    let mut level: u8 = 0;
    let mut i: usize = 0;
    assert(patterns@.take(0) =~= Seq::<InitialPattern>::empty());
    while i < patterns.len()
        invariant
            i <= patterns.len(),
            level == top_level(patterns@.take(i as int)),
        decreases patterns.len() - i,
    {
        proof {
            let next = patterns@.take(i + 1);
            assert(next.drop_last() =~= patterns@.take(i as int));
            assert(next.last() == patterns@[i as int]);
        }
        if patterns[i].level >= level {
            level = patterns[i].level;
        }
        i = i + 1;
    }
    assert(patterns@.take(patterns.len() as int) =~= patterns@);
    level
}

/// The choices of every pattern, or nothing where a pattern is not well
/// formed.
pub(crate) fn all_pattern_choices(deck: &Vec<Card>, patterns: &Vec<InitialPattern>) -> (choices: Option<
    Vec<Vec<Vec<usize>>>,
>)
    ensures
        choices is Some <==> all_well_formed(patterns@),
        choices matches Some(lists) ==> {
            &&& lists@.len() == patterns@.len()
            &&& forall|p: int|
                0 <= p < patterns@.len() ==> stands_for(
                    entry_names(deck@),
                    (#[trigger] patterns@[p]).groups(),
                    rows(lists@[p]@),
                )
        },
{
    let mut lists: Vec<Vec<Vec<usize>>> = Vec::new();
    let mut i: usize = 0;
    while i < patterns.len()
        invariant
            i <= patterns.len(),
            lists@.len() == i,
            forall|p: int| 0 <= p < i ==> (#[trigger] patterns@[p]).well_formed(),
            forall|p: int|
                0 <= p < i ==> stands_for(
                    entry_names(deck@),
                    (#[trigger] patterns@[p]).groups(),
                    rows(lists@[p]@),
                ),
        decreases patterns.len() - i,
    {
        let pattern = &patterns[i];
        if pattern.second.is_none() && pattern.third.is_some() {
            assert(!patterns@[i as int].well_formed());
            return None;
        }
        lists.push(pattern_choices(deck, pattern));
        i = i + 1;
    }
    Some(lists)
}

/// What holding a hand against every pattern finds out about levels.
pub struct LevelsMet {
    /// The highest level of the patterns that the hand meets, if it meets any.
    pub highest: Option<usize>,
    /// For each level, whether the hand meets a pattern of that level.
    pub met: Vec<bool>,
}

/// `levels` says of the hand drawn from `places` which levels it reaches.
pub open spec fn levels_of_hand(
    deck: Seq<Card>,
    patterns: Seq<InitialPattern>,
    places: Seq<usize>,
    levels: LevelsMet,
) -> bool {
    &&& levels.met@.len() == top_level(patterns) + 1
    &&& forall|l: int|
        0 <= l <= top_level(patterns) ==> #[trigger] levels.met@[l] == counted_for_level(
            deck,
            patterns,
            places,
            l,
            false,
        )
    &&& forall|l: int|
        0 <= l ==> (#[trigger] counted_for_level(deck, patterns, places, l, true) <==> (
        levels.highest matches Some(m) && l <= m))
    &&& levels.highest matches Some(m) ==> m <= top_level(patterns)
}

/// A list of `n` times `false`.
fn no_level(n: usize) -> (list: Vec<bool>)
    ensures
        list@.len() == n,
        forall|i: int| 0 <= i < n ==> !list@[i],
{
    let mut list: Vec<bool> = Vec::new();
    let mut i: usize = 0;
    while i < n
        invariant
            i <= n,
            list@.len() == i,
            forall|j: int| 0 <= j < i ==> !list@[j],
        decreases n - i,
    {
        list.push(false);
        i = i + 1;
    }
    list
}

/// Holds the hand drawn from `places` against every pattern: counts the hand
/// for each pattern that it meets, and returns the levels of these patterns.
fn classify_hand(
    deck: &Vec<Card>,
    patterns: &Vec<InitialPattern>,
    lists: &Vec<Vec<Vec<usize>>>,
    cards: &Vec<usize>,
    places: &Vec<usize>,
    pattern_counts: &mut Vec<u64>,
    max_level: u8,
) -> (levels: LevelsMet)
    requires
        cards@ == ids_of(entry_names(deck@), card_names(deck@)),
        places_within(places@, cards@.len()),
        lists@.len() == patterns@.len(),
        forall|p: int|
            0 <= p < patterns@.len() ==> stands_for(
                entry_names(deck@),
                (#[trigger] patterns@[p]).groups(),
                rows(lists@[p]@),
            ),
        old(pattern_counts)@.len() == patterns@.len(),
        forall|p: int| 0 <= p < patterns@.len() ==> old(pattern_counts)@[p] < u64::MAX,
        max_level == top_level(patterns@),
    ensures
        final(pattern_counts)@.len() == patterns@.len(),
        forall|p: int|
            0 <= p < patterns@.len() ==> #[trigger] final(pattern_counts)@[p] == old(
                pattern_counts,
            )@[p] + hit(deck@, patterns@[p], places@),
        levels_of_hand(deck@, patterns@, places@, levels),
{
    let ghost entries = entry_names(deck@);
    let ghost hand_names = names_at(card_names(deck@), places@);
    let mut hand = cards_at(cards, places);
    proof {
        assert(hand@ =~= ids_of(entries, hand_names));
        assert forall|i: int| 0 <= i < hand_names.len() implies entries.contains(
            #[trigger] hand_names[i],
        ) by {
            lemma_card_names_known(deck@, places@[i] as int);
        }
    }
    sort_ids(&mut hand);
    assert(entries.len() == deck.len());
    let mut highest: Option<usize> = None;
    let mut met = no_level(max_level as usize + 1);
    let mut p: usize = 0;
    while p < patterns.len()
        invariant
            p <= patterns.len(),
            lists@.len() == patterns@.len(),
            pattern_counts@.len() == patterns@.len(),
            old(pattern_counts)@.len() == patterns@.len(),
            entries == entry_names(deck@),
            entries.len() <= usize::MAX,
            hand_names == names_at(card_names(deck@), places@),
            forall|i: int| 0 <= i < hand_names.len() ==> entries.contains(#[trigger] hand_names[i]),
            ascending(hand@),
            same_counts(hand@, ids_of(entries, hand_names)),
            max_level == top_level(patterns@),
            met@.len() == max_level + 1,
            forall|q: int|
                0 <= q < patterns@.len() ==> stands_for(
                    entries,
                    (#[trigger] patterns@[q]).groups(),
                    rows(lists@[q]@),
                ),
            forall|q: int|
                0 <= q < p ==> #[trigger] pattern_counts@[q] == old(pattern_counts)@[q] + hit(
                    deck@,
                    patterns@[q],
                    places@,
                ),
            forall|q: int|
                p <= q < patterns@.len() ==> #[trigger] pattern_counts@[q] == old(
                    pattern_counts,
                )@[q],
            forall|q: int| 0 <= q < patterns@.len() ==> old(pattern_counts)@[q] < u64::MAX,
            forall|q: int|
                0 <= q < p && #[trigger] meets_pattern(deck@, patterns@[q], places@) ==> (
                highest matches Some(m) && patterns@[q].level <= m) && met@[patterns@[q].level as int],
            highest matches Some(m) ==> exists|q: int|
                0 <= q < p && patterns@[q].level == m && #[trigger] meets_pattern(
                    deck@,
                    patterns@[q],
                    places@,
                ),
            forall|l: int|
                0 <= l <= max_level && #[trigger] met@[l] ==> exists|q: int|
                    0 <= q < p && patterns@[q].level == l && #[trigger] meets_pattern(
                        deck@,
                        patterns@[q],
                        places@,
                    ),
        decreases patterns.len() - p,
    {
        let found = meets_some_choice(&hand, &lists[p]);
        proof {
            lemma_choice_within_is_meeting(
                entries,
                patterns@[p as int].groups(),
                rows(lists@[p as int]@),
                hand_names,
                hand@,
            );
            assert(found == meets_pattern(deck@, patterns@[p as int], places@));
            lemma_top_level_bounds(patterns@, p as int);
        }
        let ghost met_before = met@;
        let ghost highest_before = highest;
        if found {
            let count: u64 = pattern_counts[p];
            pattern_counts.set(p, count + 1);
            let level: usize = patterns[p].level as usize;
            highest = op_max(highest, Some(level));
            met.set(level, true);
        }
        proof {
            assert forall|q: int|
                0 <= q < p + 1 && #[trigger] meets_pattern(
                    deck@,
                    patterns@[q],
                    places@,
                ) implies (highest matches Some(m) && patterns@[q].level <= m)
                && met@[patterns@[q].level as int] by {
                lemma_top_level_bounds(patterns@, q);
                if q < p {
                    assert(met_before[patterns@[q].level as int]);
                }
            }
            assert forall|l: int| 0 <= l <= max_level && #[trigger] met@[l] implies exists|q: int|
                0 <= q < p + 1 && patterns@[q].level == l && #[trigger] meets_pattern(
                    deck@,
                    patterns@[q],
                    places@,
                ) by {
                if met_before[l] {
                    let q = choose|q: int|
                        0 <= q < p && patterns@[q].level == l && #[trigger] meets_pattern(
                            deck@,
                            patterns@[q],
                            places@,
                        );
                    assert(meets_pattern(deck@, patterns@[q], places@));
                } else {
                    assert(meets_pattern(deck@, patterns@[p as int], places@));
                }
            }
        }
        p = p + 1;
    }
    let levels = LevelsMet { highest, met };
    proof {
        assert forall|l: int| 0 <= l implies (#[trigger] counted_for_level(
            deck@,
            patterns@,
            places@,
            l,
            true,
        ) <==> (highest matches Some(m) && l <= m)) by {
            if counted_for_level(deck@, patterns@, places@, l, true) {
                let q = choose|q: int|
                    0 <= q < patterns@.len() && level_counts_for(patterns@[q].level, l, true)
                        && #[trigger] meets_pattern(deck@, patterns@[q], places@);
                assert(meets_pattern(deck@, patterns@[q], places@));
            }
            if let Some(m) = highest {
                let q = choose|q: int|
                    0 <= q < patterns@.len() && patterns@[q].level == m && #[trigger] meets_pattern(
                        deck@,
                        patterns@[q],
                        places@,
                    );
                if l <= m {
                    assert(level_counts_for(patterns@[q].level, l, true));
                }
            }
        }
        assert forall|l: int| 0 <= l <= top_level(patterns@) implies #[trigger] levels.met@[l]
            == counted_for_level(deck@, patterns@, places@, l, false) by {
            if counted_for_level(deck@, patterns@, places@, l, false) {
                let q = choose|q: int|
                    0 <= q < patterns@.len() && level_counts_for(patterns@[q].level, l, false)
                        && #[trigger] meets_pattern(deck@, patterns@[q], places@);
                assert(meets_pattern(deck@, patterns@[q], places@));
            }
            if levels.met@[l] {
                let q = choose|q: int|
                    0 <= q < patterns@.len() && patterns@[q].level == l && #[trigger] meets_pattern(
                        deck@,
                        patterns@[q],
                        places@,
                    );
                assert(level_counts_for(patterns@[q].level, l, false));
            }
        }
        if let Some(m) = highest {
            let q = choose|q: int|
                0 <= q < patterns@.len() && patterns@[q].level == m && #[trigger] meets_pattern(
                    deck@,
                    patterns@[q],
                    places@,
                );
            lemma_top_level_bounds(patterns@, q);
        }
    }
    levels
}

/// A list of `n` zeros.
fn zeros(n: usize) -> (list: Vec<u64>)
    ensures
        list@.len() == n,
        forall|i: int| 0 <= i < n ==> list@[i] == 0,
{
    let mut list: Vec<u64> = Vec::new();
    let mut i: usize = 0;
    while i < n
        invariant
            i <= n,
            list@.len() == i,
            forall|j: int| 0 <= j < i ==> list@[j] == 0,
        decreases n - i,
    {
        list.push(0);
        i = i + 1;
    }
    list
}

/// Counts a hand for every level from zero up to `reached`.
fn count_up_to(level_counts: &mut Vec<u64>, reached: usize)
    requires
        reached < old(level_counts)@.len(),
        forall|l: int| 0 <= l <= reached ==> old(level_counts)@[l] < u64::MAX,
    ensures
        final(level_counts)@.len() == old(level_counts)@.len(),
        forall|l: int|
            0 <= l <= reached ==> #[trigger] final(level_counts)@[l] == old(level_counts)@[l] + 1,
        forall|l: int|
            reached < l < old(level_counts)@.len() ==> #[trigger] final(level_counts)@[l] == old(
                level_counts,
            )@[l],
{
    let mut l: usize = 0;
    while l <= reached
        invariant
            l <= reached + 1,
            reached < level_counts.len(),
            reached < old(level_counts)@.len(),
            level_counts@.len() == old(level_counts)@.len(),
            forall|j: int| 0 <= j <= reached ==> old(level_counts)@[j] < u64::MAX,
            forall|j: int| 0 <= j < l ==> #[trigger] level_counts@[j] == old(level_counts)@[j] + 1,
            forall|j: int|
                l <= j < level_counts@.len() ==> #[trigger] level_counts@[j] == old(
                    level_counts,
                )@[j],
        decreases reached + 1 - l,
    {
        let count: u64 = level_counts[l];
        level_counts.set(l, count + 1);
        l = l + 1;
    }
}

/// Counts a hand for every level that is marked.
fn count_marked(level_counts: &mut Vec<u64>, met: &Vec<bool>)
    requires
        met@.len() == old(level_counts)@.len(),
        forall|l: int| 0 <= l < met@.len() ==> old(level_counts)@[l] < u64::MAX,
    ensures
        final(level_counts)@.len() == old(level_counts)@.len(),
        forall|l: int|
            0 <= l < met@.len() ==> #[trigger] final(level_counts)@[l] == old(level_counts)@[l]
                + if met@[l] {
                1int
            } else {
                0int
            },
{
    let mut l: usize = 0;
    while l < met.len()
        invariant
            l <= met.len(),
            met@.len() == old(level_counts)@.len(),
            level_counts@.len() == old(level_counts)@.len(),
            forall|j: int| 0 <= j < met@.len() ==> old(level_counts)@[j] < u64::MAX,
            forall|j: int|
                0 <= j < l ==> #[trigger] level_counts@[j] == old(level_counts)@[j] + if met@[j] {
                    1int
                } else {
                    0int
                },
            forall|j: int|
                l <= j < level_counts@.len() ==> #[trigger] level_counts@[j] == old(
                    level_counts,
                )@[j],
        decreases met.len() - l,
    {
        if met[l] {
            let count: u64 = level_counts[l];
            level_counts.set(l, count + 1);
        }
        l = l + 1;
    }
}

/// The counts are those of a search of every hand of `draw_n` cards.
pub open spec fn counts_of_search(
    deck: Seq<Card>,
    patterns: Seq<InitialPattern>,
    draw_n: u64,
    cumulative: bool,
    counts: AllSearchCounts,
) -> bool {
    &&& counts.total == all_hands(deck, draw_n).len()
    &&& counts.pattern_hits@.len() == patterns.len()
    &&& forall|p: int|
        0 <= p < patterns.len() ==> #[trigger] counts.pattern_hits@[p] == pattern_hits(
            deck,
            patterns[p],
            all_hands(deck, draw_n),
        )
    &&& counts.level_hits@.len() == top_level(patterns) + 1
    &&& forall|l: int|
        0 <= l <= top_level(patterns) ==> #[trigger] counts.level_hits@[l] == level_hits(
            deck,
            patterns,
            all_hands(deck, draw_n),
            l,
            cumulative,
        )
}

/// What a search returns for a deck, its patterns and a hand size.
pub open spec fn search_outcome(
    deck: Seq<Card>,
    patterns: Seq<InitialPattern>,
    draw_n: u64,
    cumulative: bool,
    result: Result<AllSearchCounts, AppError>,
) -> bool {
    match result {
        Ok(counts) => {
            &&& patterns.len() > 0
            &&& all_well_formed(patterns)
            &&& spec_combination(deck_size(deck) as u64, draw_n) == Some(counts.total)
            &&& counts_of_search(deck, patterns, draw_n, cumulative, counts)
        },
        Err(AppError::InvalidDataError(text)) => {
            ||| patterns.len() == 0 && text@ == "Invalid init_patterns."@
            ||| patterns.len() > 0 && !all_well_formed(patterns) && text@
                == "Invalid init_patters"@
        },
        Err(AppError::OverflowCombinationError) => {
            &&& patterns.len() > 0
            &&& all_well_formed(patterns)
            &&& spec_combination(deck_size(deck) as u64, draw_n) is None
        },
    }
}

/// Draws every hand of `draw_n` cards and holds each against every pattern,
/// counting for the levels as the policy says.
pub(crate) fn search<P: ProgressSink>(
    deck: &Vec<Card>,
    patterns: &Vec<InitialPattern>,
    draw_n: u64,
    cumulative: bool,
    progress: &mut P,
) -> (result: Result<AllSearchCounts, AppError>)
    requires
        deck_size(deck@) <= usize::MAX,
    ensures
        search_outcome(deck@, patterns@, draw_n, cumulative, result),
{
    if patterns.len() == 0 {
        return Err(AppError::InvalidDataError("Invalid init_patterns.".to_owned()));
    }
    let max_level: u8 = highest_level(patterns);
    let lists = match all_pattern_choices(deck, patterns) {
        Some(lists) => lists,
        None => {
            return Err(AppError::InvalidDataError("Invalid init_patters".to_owned()));
        },
    };
    let cards = expand_deck(deck);
    let n: usize = cards.len();
    let total: u64 = match combination_n(n as u64, draw_n) {
        Some(total) => total,
        None => {
            return Err(AppError::OverflowCombinationError);
        },
    };
    let ghost all = all_hands(deck@, draw_n);
    proof {
        lemma_index_combinations_len(0, n as nat, draw_n as nat);
        lemma_combination_value(n as u64, draw_n);
        lemma_top_level_range(patterns@);
    }
    let mut pattern_counts = zeros(patterns.len());
    let mut level_counts = zeros(max_level as usize + 1);
    progress.start(total);
    let mut hands = begin_hands(n, draw_n as usize);
    let mut seen: u64 = 0;
    assert(all.skip(0) =~= all);
    assert(all.take(0) =~= Seq::<Seq<usize>>::empty());
    let mut next = next_hand(&mut hands);
    while next.is_some()
        invariant
            n == deck_size(deck@),
            draw_n <= n,
            all == index_combinations(0, n as nat, draw_n as nat),
            all.len() == total,
            seen <= total,
            match next {
                Some(places) => {
                    &&& seen < all.len()
                    &&& places@ == all[seen as int]
                    &&& remaining_hands(hands) == all.skip(seen + 1)
                },
                None => seen == all.len(),
            },
            cards@ == ids_of(entry_names(deck@), card_names(deck@)),
            cards@.len() == n,
            lists@.len() == patterns@.len(),
            forall|p: int|
                0 <= p < patterns@.len() ==> stands_for(
                    entry_names(deck@),
                    (#[trigger] patterns@[p]).groups(),
                    rows(lists@[p]@),
                ),
            pattern_counts@.len() == patterns@.len(),
            forall|p: int|
                0 <= p < patterns@.len() ==> #[trigger] pattern_counts@[p] == pattern_hits(
                    deck@,
                    patterns@[p],
                    all.take(seen as int),
                ),
            max_level == top_level(patterns@),
            level_counts@.len() == max_level + 1,
            forall|l: int|
                0 <= l <= max_level ==> #[trigger] level_counts@[l] == level_hits(
                    deck@,
                    patterns@,
                    all.take(seen as int),
                    l,
                    cumulative,
                ),
        decreases total - seen,
    {
        let places = next.unwrap();
        let ghost before = all.take(seen as int);
        let ghost after = all.take(seen + 1);
        proof {
            lemma_index_combinations_shape(0, n as nat, draw_n as nat, seen as int);
            assert(after.drop_last() =~= before);
            assert(after.last() == places@);
            assert forall|p: int| 0 <= p < patterns@.len() implies pattern_counts@[p]
                < u64::MAX by {
                lemma_pattern_hits_bounded(deck@, patterns@[p], before);
            }
            assert forall|l: int| 0 <= l <= max_level implies level_counts@[l] < u64::MAX by {
                lemma_level_hits_bounded(deck@, patterns@, before, l, cumulative);
            }
        }
        let levels = classify_hand(
            deck,
            patterns,
            &lists,
            &cards,
            &places,
            &mut pattern_counts,
            max_level,
        );
        if cumulative {
            if let Some(reached) = levels.highest {
                count_up_to(&mut level_counts, reached);
            }
        } else {
            count_marked(&mut level_counts, &levels.met);
        }
        seen = seen + 1;
        progress.advance(seen);
        next = next_hand(&mut hands);
        proof {
            if seen < all.len() {
                assert(all.skip(seen as int).skip(1) =~= all.skip(seen + 1));
                assert(all.skip(seen as int)[0] == all[seen as int]);
            }
        }
    }
    assert(all.take(seen as int) =~= all);
    Ok(AllSearchCounts { pattern_hits: pattern_counts, level_hits: level_counts, total })
}

} // verus!
