//! The exact probability that a hand meets a pattern, by counting the hands
//! that miss one of its groups.

use crate::agreement::{lemma_exact_one, lemma_exact_three, lemma_exact_two};
use crate::combinations::{combination_n, spec_combination};
use crate::domain::string_or_list::{holds_name, names_of};
use crate::domain::{copies_named, deck_size, Card, InitialPattern, StringOrList};
use crate::error::AppError;
use vstd::prelude::*;

verus! {

/// A probability as a fraction of hands: `hits` out of `hands`.
#[derive(Debug, Clone, Copy, PartialEq, Eq)]
pub struct Chance {
    /// The number of hands that hold a card of every group.
    pub hits: u64,
    /// The number of all hands.
    pub hands: u64,
}

/// The names of a group, as a set.
pub open spec fn group_names(group: StringOrList) -> Set<Seq<char>> {
    group.alternatives().to_set()
}

/// The number of hands of `draw_n` cards that hold no card named in `names`,
/// as [`combination_n`] counts them: nothing where fewer than `draw_n` cards
/// are left, or where the count does not fit.
pub open spec fn hands_without(deck: Seq<Card>, names: Set<Seq<char>>, draw_n: u64) -> Option<
    u64,
> {
    spec_combination((deck_size(deck) - copies_named(deck, names)) as u64, draw_n)
}

/// The number of hands that hold no card of the group; nothing where the
/// count is missing.
pub open spec fn missing_one(deck: Seq<Card>, a: Set<Seq<char>>, draw_n: u64) -> Option<int> {
    match hands_without(deck, a, draw_n) {
        Some(wa) => Some(wa as int),
        None => None,
    }
}

/// The number of hands that miss at least one of two groups, by inclusion
/// and exclusion; nothing where a count is missing.
pub open spec fn missing_two(
    deck: Seq<Card>,
    a: Set<Seq<char>>,
    b: Set<Seq<char>>,
    draw_n: u64,
) -> Option<int> {
    match (
        hands_without(deck, a, draw_n),
        hands_without(deck, b, draw_n),
        hands_without(deck, a + b, draw_n),
    ) {
        (Some(wa), Some(wb), Some(wab)) => Some(wa + wb - wab),
        _ => None,
    }
}

/// The number of hands that miss at least one of three groups, by inclusion
/// and exclusion; nothing where a count is missing.
pub open spec fn missing_three(
    deck: Seq<Card>,
    a: Set<Seq<char>>,
    b: Set<Seq<char>>,
    c: Set<Seq<char>>,
    draw_n: u64,
) -> Option<int> {
    match (
        hands_without(deck, a, draw_n),
        hands_without(deck, b, draw_n),
        hands_without(deck, c, draw_n),
        hands_without(deck, a + b, draw_n),
        hands_without(deck, b + c, draw_n),
        hands_without(deck, c + a, draw_n),
        hands_without(deck, a + b + c, draw_n),
    ) {
        (Some(wa), Some(wb), Some(wc), Some(wab), Some(wbc), Some(wca), Some(wabc)) => Some(
            wa + wb + wc - wab - wbc - wca + wabc,
        ),
        _ => None,
    }
}

/// The number of hands that miss at least one group of the pattern; nothing
/// where a count is missing.
pub open spec fn missing_hands(deck: Seq<Card>, pattern: InitialPattern, draw_n: u64) -> Option<
    int,
> {
    let a = group_names(pattern.first);
    match (pattern.second, pattern.third) {
        (None, _) => missing_one(deck, a, draw_n),
        (Some(second), None) => missing_two(deck, a, group_names(second), draw_n),
        (Some(second), Some(third)) => missing_three(
            deck,
            a,
            group_names(second),
            group_names(third),
            draw_n,
        ),
    }
}

/// The chance counted from all hands and the hands that miss a group: the
/// fraction of the other hands, and a failure where a count is missing.
pub open spec fn chance_outcome(
    all: Option<u64>,
    missing: Option<int>,
    result: Result<Chance, AppError>,
) -> bool {
    match result {
        Ok(chance) => {
            &&& all == Some(chance.hands)
            &&& missing is Some
            &&& chance.hits == chance.hands - missing->0
        },
        Err(AppError::InvalidDataError(_)) => false,
        Err(AppError::OverflowCombinationError) => all is None || missing is None,
    }
}

/// What [`pattern_prob`] returns.
pub open spec fn prob_outcome(
    deck: Seq<Card>,
    pattern: InitialPattern,
    draw_n: u64,
    result: Result<Chance, AppError>,
) -> bool {
    if pattern.well_formed() {
        chance_outcome(
            spec_combination(deck_size(deck) as u64, draw_n),
            missing_hands(deck, pattern, draw_n),
            result,
        )
    } else {
        result matches Err(AppError::InvalidDataError(text)) && text@ == "invalid pattern"@
    }
}

/// The cards of the deck that bear none of the names are at most the deck.
pub proof fn lemma_copies_named_bounded(deck: Seq<Card>, names: Set<Seq<char>>)
    ensures
        copies_named(deck, names) <= deck_size(deck),
    decreases deck.len(),
{
    if deck.len() > 0 {
        lemma_copies_named_bounded(deck.drop_last(), names);
    }
}

/// The number of cards in the deck, copies counted.
pub fn count_cards(deck: &Vec<Card>) -> (n: u64)
    requires
        deck_size(deck@) <= u64::MAX,
    ensures
        n == deck_size(deck@),
{
    let mut n: u64 = 0;
    let mut i: usize = 0;
    assert(deck@.take(0) =~= Seq::<Card>::empty());
    while i < deck.len()
        invariant
            i <= deck.len(),
            n == deck_size(deck@.take(i as int)),
            deck_size(deck@) <= u64::MAX,
        decreases deck.len() - i,
    {
        proof {
            assert(deck@.take(i + 1).drop_last() =~= deck@.take(i as int));
            lemma_deck_size_prefix(deck@, i + 1);
        }
        n = n + deck[i].number as u64;
        i = i + 1;
    }
    assert(deck@.take(deck.len() as int) =~= deck@);
    n
}

/// The first entries of a deck hold no more cards than the deck.
pub proof fn lemma_deck_size_prefix(deck: Seq<Card>, upto: int)
    requires
        0 <= upto <= deck.len(),
    ensures
        deck_size(deck.take(upto)) <= deck_size(deck),
    decreases deck.len() - upto,
{
    if upto < deck.len() {
        lemma_deck_size_prefix(deck, upto + 1);
        assert(deck.take(upto + 1).drop_last() =~= deck.take(upto));
    } else {
        assert(deck.take(upto) =~= deck);
    }
}

/// The names that stand in one of up to three lists.
pub open spec fn names_in_any(
    first: Seq<&String>,
    second: Option<Seq<&String>>,
    third: Option<Seq<&String>>,
) -> Set<Seq<char>> {
    names_of(first).to_set() + match second {
        Some(list) => names_of(list).to_set(),
        None => Set::empty(),
    } + match third {
        Some(list) => names_of(list).to_set(),
        None => Set::empty(),
    }
}

/// The number of cards in the deck that bear a name of one of the lists,
/// copies counted.
pub fn count_named(
    deck: &Vec<Card>,
    first: &Vec<&String>,
    second: Option<&Vec<&String>>,
    third: Option<&Vec<&String>>,
) -> (n: u64)
    requires
        deck_size(deck@) <= u64::MAX,
    ensures
        n == copies_named(
            deck@,
            names_in_any(
                first@,
                match second {
                    Some(list) => Some(list@),
                    None => None,
                },
                match third {
                    Some(list) => Some(list@),
                    None => None,
                },
            ),
        ),
        n <= deck_size(deck@),
{
    let ghost names = names_in_any(
        first@,
        match second {
            Some(list) => Some(list@),
            None => None,
        },
        match third {
            Some(list) => Some(list@),
            None => None,
        },
    );
    let mut n: u64 = 0;
    let mut i: usize = 0;
    assert(deck@.take(0) =~= Seq::<Card>::empty());
    while i < deck.len()
        invariant
            i <= deck.len(),
            n == copies_named(deck@.take(i as int), names),
            deck_size(deck@) <= u64::MAX,
            names == names_in_any(
                first@,
                match second {
                    Some(list) => Some(list@),
                    None => None,
                },
                match third {
                    Some(list) => Some(list@),
                    None => None,
                },
            ),
        decreases deck.len() - i,
    {
        let name = &deck[i].name;
        let named = holds_name(first, name) || match second {
            Some(list) => holds_name(list, name),
            None => false,
        } || match third {
            Some(list) => holds_name(list, name),
            None => false,
        };
        proof {
            let next = deck@.take(i + 1);
            assert(next.drop_last() =~= deck@.take(i as int));
            assert(next.last() == deck@[i as int]);
            assert(named == names.contains(name@));
            lemma_copies_named_bounded(next, names);
            lemma_deck_size_prefix(deck@, i + 1);
        }
        if named {
            n = n + deck[i].number as u64;
        }
        i = i + 1;
    }
    proof {
        assert(deck@.take(deck.len() as int) =~= deck@);
        lemma_copies_named_bounded(deck@, names);
    }
    n
}

/// The chance that is left of `all` hands when `missing` of them miss a group.
fn chance_from(all: u64, missing: i128) -> (chance: Chance)
    requires
        0 <= missing <= all,
    ensures
        chance.hands == all,
        chance.hits == all - missing,
{
    Chance { hits: (all as i128 - missing) as u64, hands: all }
}

/// The number of hands of `draw_n` cards out of the `n` cards of a deck that
/// are left when `named` of them are put aside.
fn hands_of_rest(n: u64, named: u64, draw_n: u64) -> (hands: Option<u64>)
    requires
        named <= n,
    ensures
        hands == spec_combination((n - named) as u64, draw_n),
{
    combination_n(n - named, draw_n)
}

/// The chance that a hand of `draw_n` cards holds a card of the group.
pub fn single_pat_prob(deck: &Vec<Card>, first: &StringOrList, draw_n: u64) -> (result: Result<
    Chance,
    AppError,
>)
    requires
        deck_size(deck@) <= usize::MAX,
        deck_size(deck@) <= u64::MAX,
    ensures
        chance_outcome(
            spec_combination(deck_size(deck@) as u64, draw_n),
            missing_one(deck@, group_names(*first), draw_n),
            result,
        ),
{
    let n: u64 = count_cards(deck);
    let a = first.as_set();
    let first_n: u64 = count_named(deck, &a, None, None);
    proof {
        assert(names_in_any(a@, None, None) =~= group_names(*first));
    }
    let all: u64 = match combination_n(n, draw_n) {
        Some(all) => all,
        None => {
            return Err(AppError::OverflowCombinationError);
        },
    };
    let wa: u64 = match hands_of_rest(n, first_n, draw_n) {
        Some(hands) => hands,
        None => {
            return Err(AppError::OverflowCombinationError);
        },
    };
    proof {
        lemma_exact_one(deck@, group_names(*first), draw_n);
    }
    Ok(chance_from(all, wa as i128))
}

/// The chance that a hand of `draw_n` cards holds a card of each of two
/// groups. A card whose name stands in both groups counts for both.
pub fn double_pat_prob(
    deck: &Vec<Card>,
    first: &StringOrList,
    second: &StringOrList,
    draw_n: u64,
) -> (result: Result<Chance, AppError>)
    requires
        deck_size(deck@) <= usize::MAX,
        deck_size(deck@) <= u64::MAX,
    ensures
        chance_outcome(
            spec_combination(deck_size(deck@) as u64, draw_n),
            missing_two(deck@, group_names(*first), group_names(*second), draw_n),
            result,
        ),
{
    let n: u64 = count_cards(deck);
    let a = first.as_set();
    let b = second.as_set();
    let first_n: u64 = count_named(deck, &a, None, None);
    let second_n: u64 = count_named(deck, &b, None, None);
    let both_n: u64 = count_named(deck, &a, Some(&b), None);
    proof {
        let sa = group_names(*first);
        let sb = group_names(*second);
        assert(names_in_any(a@, None, None) =~= sa);
        assert(names_in_any(b@, None, None) =~= sb);
        assert(names_in_any(a@, Some(b@), None) =~= sa + sb);
    }
    let all: u64 = match combination_n(n, draw_n) {
        Some(all) => all,
        None => {
            return Err(AppError::OverflowCombinationError);
        },
    };
    match (
        hands_of_rest(n, first_n, draw_n),
        hands_of_rest(n, second_n, draw_n),
        hands_of_rest(n, both_n, draw_n),
    ) {
        (Some(wa), Some(wb), Some(wab)) => {
            proof {
                lemma_exact_two(deck@, group_names(*first), group_names(*second), draw_n);
            }
            Ok(chance_from(all, wa as i128 + wb as i128 - wab as i128))
        },
        _ => Err(AppError::OverflowCombinationError),
    }
}

/// The chance that a hand of `draw_n` cards holds a card of each of three
/// groups. A card whose name stands in several groups counts for each.
pub fn triple_pat_prob(
    deck: &Vec<Card>,
    first: &StringOrList,
    second: &StringOrList,
    third: &StringOrList,
    draw_n: u64,
) -> (result: Result<Chance, AppError>)
    requires
        deck_size(deck@) <= usize::MAX,
        deck_size(deck@) <= u64::MAX,
    ensures
        chance_outcome(
            spec_combination(deck_size(deck@) as u64, draw_n),
            missing_three(
                deck@,
                group_names(*first),
                group_names(*second),
                group_names(*third),
                draw_n,
            ),
            result,
        ),
{
    let n: u64 = count_cards(deck);
    let a = first.as_set();
    let b = second.as_set();
    let c = third.as_set();
    let a_n: u64 = count_named(deck, &a, None, None);
    let b_n: u64 = count_named(deck, &b, None, None);
    let c_n: u64 = count_named(deck, &c, None, None);
    let ab_n: u64 = count_named(deck, &a, Some(&b), None);
    let bc_n: u64 = count_named(deck, &b, Some(&c), None);
    let ca_n: u64 = count_named(deck, &c, Some(&a), None);
    let abc_n: u64 = count_named(deck, &a, Some(&b), Some(&c));
    proof {
        let sa = group_names(*first);
        let sb = group_names(*second);
        let sc = group_names(*third);
        assert(names_in_any(a@, None, None) =~= sa);
        assert(names_in_any(b@, None, None) =~= sb);
        assert(names_in_any(c@, None, None) =~= sc);
        assert(names_in_any(a@, Some(b@), None) =~= sa + sb);
        assert(names_in_any(b@, Some(c@), None) =~= sb + sc);
        assert(names_in_any(c@, Some(a@), None) =~= sc + sa);
        assert(names_in_any(a@, Some(b@), Some(c@)) =~= sa + sb + sc);
    }
    let all: u64 = match combination_n(n, draw_n) {
        Some(all) => all,
        None => {
            return Err(AppError::OverflowCombinationError);
        },
    };
    match (
        hands_of_rest(n, a_n, draw_n),
        hands_of_rest(n, b_n, draw_n),
        hands_of_rest(n, c_n, draw_n),
    ) {
        (Some(wa), Some(wb), Some(wc)) => match (
            hands_of_rest(n, ab_n, draw_n),
            hands_of_rest(n, bc_n, draw_n),
            hands_of_rest(n, ca_n, draw_n),
            hands_of_rest(n, abc_n, draw_n),
        ) {
            (Some(wab), Some(wbc), Some(wca), Some(wabc)) => {
                proof {
                    lemma_exact_three(
                        deck@,
                        group_names(*first),
                        group_names(*second),
                        group_names(*third),
                        draw_n,
                    );
                }
                Ok(
                    chance_from(
                        all,
                        wa as i128 + wb as i128 + wc as i128 - wab as i128 - wbc as i128
                            - wca as i128 + wabc as i128,
                    ),
                )
            },
            _ => Err(AppError::OverflowCombinationError),
        },
        _ => Err(AppError::OverflowCombinationError),
    }
}

/// The chance that a hand of `draw_n` cards drawn from the deck meets the
/// pattern: that it holds, for each group of the pattern, a card whose name
/// is one of the group's.
///
/// The hands that miss a group are counted by inclusion and exclusion over
/// the groups, a card whose name stands in several groups being counted
/// once. Fails where the pattern has a third group and no second, and where
/// one of the counts has no result: more cards are asked for than are left
/// beside a group or beside several together, or a count does not fit in 64
/// bits.
pub fn pattern_prob(deck: &Vec<Card>, pat: &InitialPattern, draw_n: u64) -> (result: Result<
    Chance,
    AppError,
>)
    requires
        deck_size(deck@) <= usize::MAX,
        deck_size(deck@) <= u64::MAX,
    ensures
        prob_outcome(deck@, *pat, draw_n, result),
{
    match (&pat.second, &pat.third) {
        (None, None) => single_pat_prob(deck, &pat.first, draw_n),
        (Some(second), None) => double_pat_prob(deck, &pat.first, second, draw_n),
        (Some(second), Some(third)) => triple_pat_prob(deck, &pat.first, second, third, draw_n),
        (None, Some(_)) => Err(AppError::InvalidDataError("invalid pattern".to_owned())),
    }
}

} // verus!
