//! What a pattern asks of a hand, and the same in numbers.

use super::matching::{ascending, count_of, covers, is_subsequence};
use super::matching::lemma_ascending_subsequence_covers;
use super::names::{card_id, entry_names, ids_of, name_id};
use super::names::{lemma_covers_by_ids, lemma_name_id_bounds};
use crate::domain::{Card, InitialPattern, StringOrList};
use crate::domain::string_or_list::names_of;
use vstd::prelude::*;

verus! {

/// `choice` takes one alternative out of each group, in the order of the groups.
pub open spec fn is_choice<A>(groups: Seq<Seq<A>>, choice: Seq<A>) -> bool {
    &&& choice.len() == groups.len()
    &&& forall|g: int| 0 <= g < groups.len() ==> (#[trigger] groups[g]).contains(choice[g])
}

/// The hand meets a pattern of these groups: for some choice of one
/// alternative out of each group, the hand holds every card chosen, and a card
/// chosen for two groups at least twice.
pub open spec fn hand_meets(groups: Seq<Seq<Seq<char>>>, hand: Seq<Seq<char>>) -> bool {
    exists|choice: Seq<Seq<char>>| #[trigger] is_choice(groups, choice) && covers(hand, choice)
}

/// The two sequences hold the same values, each as often as the other.
pub open spec fn same_counts(a: Seq<usize>, b: Seq<usize>) -> bool {
    forall|x: usize| count_of(a, x) == #[trigger] count_of(b, x)
}

/// The contents of a list of lists.
pub open spec fn rows(lists: Seq<Vec<usize>>) -> Seq<Seq<usize>> {
    Seq::new(lists.len(), |i: int| lists[i]@)
}

/// The number of ways to take one alternative out of each group.
pub open spec fn number_of_choices<A>(groups: Seq<Seq<A>>) -> nat
    decreases groups.len(),
{
    if groups.len() == 0 {
        1
    } else {
        number_of_choices(groups.drop_last()) * groups.last().len()
    }
}

/// The choice at place `at` of all choices in their order: the choices are
/// numbered like numbers are written, the last group counting fastest.
pub open spec fn choice_at(groups: Seq<Seq<usize>>, at: int) -> Seq<usize>
    decreases groups.len(),
{
    if groups.len() == 0 {
        Seq::empty()
    } else {
        let last = groups.last();
        choice_at(groups.drop_last(), at / (last.len() as int)).push(
            last[at % (last.len() as int)],
        )
    }
}

/// `row` is one of the choices that the groups allow, written in the numbers
/// of the names, in some order.
pub open spec fn is_choice_in_ids(
    entries: Seq<Seq<char>>,
    groups: Seq<Seq<Seq<char>>>,
    row: Seq<usize>,
) -> bool {
    exists|choice: Seq<Seq<char>>| #[trigger]
        is_choice(groups, choice) && same_counts(row, ids_of(entries, choice))
}

/// One of `choices` holds the numbers of the names chosen.
pub open spec fn has_row_for(
    entries: Seq<Seq<char>>,
    choices: Seq<Seq<usize>>,
    choice: Seq<Seq<char>>,
) -> bool {
    exists|i: int|
        0 <= i < choices.len() && same_counts(#[trigger] choices[i], ids_of(entries, choice))
}

/// `choices` are the choices that the groups allow, written in the numbers
/// of the names and each in ascending order.
pub open spec fn stands_for(
    entries: Seq<Seq<char>>,
    groups: Seq<Seq<Seq<char>>>,
    choices: Seq<Seq<usize>>,
) -> bool {
    &&& forall|i: int| 0 <= i < choices.len() ==> ascending(#[trigger] choices[i])
    &&& forall|i: int|
        0 <= i < choices.len() ==> is_choice_in_ids(entries, groups, #[trigger] choices[i])
    &&& forall|choice: Seq<Seq<char>>| #[trigger]
        is_choice(groups, choice) ==> has_row_for(entries, choices, choice)
}

/// Some choice can be read off the sorted hand.
pub open spec fn some_choice_within(choices: Seq<Seq<usize>>, sorted_hand: Seq<usize>) -> bool {
    exists|i: int| 0 <= i < choices.len() && is_subsequence(#[trigger] choices[i], sorted_hand)
}

/// Sorts the numbers in ascending order.
///
/// Calls `sort` of the slice, which reorders it so that no value stands
/// before a smaller one and neither adds nor drops a value.
#[verifier::external_body]
pub(crate) fn sort_ids(ids: &mut Vec<usize>)
    ensures
        ascending(final(ids)@),
        same_counts(final(ids)@, old(ids)@),
{
    ids.sort();
}

/// Every way to take one number out of each group, in the order of the groups.
///
/// Calls `Itertools::multi_cartesian_product` on the groups and collects what
/// it yields up to its first `None`: one list for each way to pick one
/// element out of each group, the element of the first group first, in the
/// order in which the last group changes fastest. Without any group it
/// yields nothing.
#[verifier::external_body]
pub(crate) fn cartesian_product(groups: &Vec<Vec<usize>>) -> (product: Vec<Vec<usize>>)
    ensures
        groups.len() > 0 ==> product.len() == number_of_choices(rows(groups@)),
        groups.len() > 0 ==> forall|i: int|
            0 <= i < product.len() ==> #[trigger] rows(product@)[i] == choice_at(rows(groups@), i),
        groups.len() == 0 ==> product.len() == 0,
{
    itertools::Itertools::multi_cartesian_product(groups.iter().map(|g| g.iter().copied())).collect()
}

/// Each of the choices in their order is a choice.
pub proof fn lemma_choice_at_is_choice(groups: Seq<Seq<usize>>, at: int)
    requires
        0 <= at < number_of_choices(groups),
    ensures
        is_choice(groups, choice_at(groups, at)),
    decreases groups.len(),
{
    if groups.len() > 0 {
        let front = groups.drop_last();
        let last = groups.last();
        let size = last.len() as int;
        let fewer = number_of_choices(front) as int;
        assert(size > 0) by (nonlinear_arith)
            requires
                0 <= at < fewer * size,
                fewer >= 0,
                size >= 0,
        ;
        assert(0 <= at / size < fewer && 0 <= at % size < size) by (nonlinear_arith)
            requires
                0 <= at < fewer * size,
                size > 0,
        ;
        lemma_choice_at_is_choice(front, at / size);
        let choice = choice_at(groups, at);
        let shorter = choice_at(front, at / size);
        assert(choice == shorter.push(last[at % size]));
        assert forall|g: int| 0 <= g < groups.len() implies (#[trigger] groups[g]).contains(
            choice[g],
        ) by {
            if g < front.len() {
                assert(front[g] == groups[g]);
                assert(front[g].contains(shorter[g]));
            } else {
                assert(last[at % size] == choice[g]);
            }
        }
    }
}

/// Each choice stands at some place among the choices in their order.
pub proof fn lemma_choice_has_place(groups: Seq<Seq<usize>>, choice: Seq<usize>)
    requires
        is_choice(groups, choice),
    ensures
        exists|at: int| 0 <= at < number_of_choices(groups) && choice_at(groups, at) == choice,
    decreases groups.len(),
{
    if groups.len() == 0 {
        assert(choice_at(groups, 0) =~= choice);
    } else {
        let front = groups.drop_last();
        let last = groups.last();
        let size = last.len() as int;
        let fewer = number_of_choices(front) as int;
        let shorter = choice.drop_last();
        assert forall|g: int| 0 <= g < front.len() implies (#[trigger] front[g]).contains(
            shorter[g],
        ) by {
            assert(groups[g].contains(choice[g]));
        }
        lemma_choice_has_place(front, shorter);
        let upper = choose|at: int| 0 <= at < fewer && choice_at(front, at) == shorter;
        assert(groups[groups.len() - 1].contains(choice[groups.len() - 1]));
        let lower = choose|a: int| 0 <= a < size && last[a] == choice.last();
        let at = upper * size + lower;
        vstd::arithmetic::div_mod::lemma_fundamental_div_mod_converse(at, size, upper, lower);
        assert(0 <= at < fewer * size) by (nonlinear_arith)
            requires
                0 <= upper < fewer,
                0 <= lower < size,
                at == upper * size + lower,
        ;
        assert(choice_at(groups, at) == shorter.push(choice.last()));
        assert(shorter.push(choice.last()) =~= choice);
    }
}

/// A choice among groups of numbers is the numbers of a choice among the
/// groups of names that the numbers stand for.
pub proof fn lemma_choice_from_ids(
    entries: Seq<Seq<char>>,
    groups: Seq<Seq<Seq<char>>>,
    id_groups: Seq<Seq<usize>>,
    row: Seq<usize>,
)
    requires
        id_groups.len() == groups.len(),
        forall|g: int| 0 <= g < groups.len() ==> id_groups[g] == ids_of(entries, groups[g]),
        is_choice(id_groups, row),
    ensures
        exists|choice: Seq<Seq<char>>| #[trigger]
            is_choice(groups, choice) && ids_of(entries, choice) == row,
{
    let choice = Seq::new(
        groups.len(),
        |g: int|
            choose|name: Seq<char>|
                groups[g].contains(name) && name_id(entries, name) as usize == row[g],
    );
    assert forall|g: int| 0 <= g < groups.len() implies (#[trigger] groups[g]).contains(choice[g])
        && name_id(entries, choice[g]) as usize == row[g] by {
        assert(id_groups[g].contains(row[g]));
        let a = choose|a: int| 0 <= a < id_groups[g].len() && id_groups[g][a] == row[g];
        assert(ids_of(entries, groups[g])[a] == row[g]);
        assert(groups[g].contains(groups[g][a]));
    }
    assert(ids_of(entries, choice) =~= row);
    assert(is_choice(groups, choice));
}

/// The numbers of a choice among groups of names are a choice among the
/// groups of their numbers.
pub proof fn lemma_choice_to_ids(
    entries: Seq<Seq<char>>,
    groups: Seq<Seq<Seq<char>>>,
    id_groups: Seq<Seq<usize>>,
    choice: Seq<Seq<char>>,
)
    requires
        id_groups.len() == groups.len(),
        forall|g: int| 0 <= g < groups.len() ==> id_groups[g] == ids_of(entries, groups[g]),
        is_choice(groups, choice),
    ensures
        is_choice(id_groups, ids_of(entries, choice)),
{
    let row = ids_of(entries, choice);
    assert forall|g: int| 0 <= g < id_groups.len() implies (#[trigger] id_groups[g]).contains(
        row[g],
    ) by {
        assert(groups[g].contains(choice[g]));
        let a = choose|a: int| 0 <= a < groups[g].len() && groups[g][a] == choice[g];
        assert(id_groups[g][a] == row[g]);
    }
}

/// The groups allow as many choices in numbers as in names.
pub proof fn lemma_number_of_choices_in_ids(entries: Seq<Seq<char>>, groups: Seq<Seq<Seq<char>>>)
    ensures
        number_of_choices(groups_in_ids(entries, groups)) == number_of_choices(groups),
    decreases groups.len(),
{
    if groups.len() > 0 {
        assert(groups_in_ids(entries, groups).drop_last() =~= groups_in_ids(
            entries,
            groups.drop_last(),
        ));
        lemma_number_of_choices_in_ids(entries, groups.drop_last());
    }
}

/// The numbers of the alternative names of a group, in their order.
pub fn group_ids(deck: &Vec<Card>, group: &StringOrList) -> (ids: Vec<usize>)
    ensures
        ids@ == ids_of(entry_names(deck@), group.alternatives()),
{
    let names = group.as_vec();
    let mut ids: Vec<usize> = Vec::new();
    let mut i: usize = 0;
    while i < names.len()
        invariant
            i <= names.len(),
            ids.len() == i,
            names_of(names@) == group.alternatives(),
            forall|a: int|
                0 <= a < i ==> ids[a] == name_id(entry_names(deck@), group.alternatives()[a]),
        decreases names.len() - i,
    {
        let id: usize = card_id(deck, names[i]);
        assert(names_of(names@)[i as int] == names[i as int]@);
        ids.push(id);
        i = i + 1;
    }
    proof {
        assert forall|a: int| 0 <= a < ids.len() implies ids@[a] == ids_of(
            entry_names(deck@),
            group.alternatives(),
        )[a] by {
            lemma_name_id_bounds(entry_names(deck@), group.alternatives()[a]);
        }
        assert(ids@ =~= ids_of(entry_names(deck@), group.alternatives()));
    }
    ids
}

/// The groups of names in the numbers of the names.
pub open spec fn groups_in_ids(entries: Seq<Seq<char>>, groups: Seq<Seq<Seq<char>>>) -> Seq<
    Seq<usize>,
> {
    Seq::new(groups.len(), |g: int| ids_of(entries, groups[g]))
}

/// The choices that a pattern allows, in the numbers of the names and each
/// sorted: what [`meets_some_choice`] holds against a sorted hand. The
/// choices stand in the order in which the last group changes fastest.
pub fn pattern_choices(deck: &Vec<Card>, pattern: &InitialPattern) -> (choices: Vec<Vec<usize>>)
    requires
        pattern.well_formed(),
    ensures
        stands_for(entry_names(deck@), pattern.groups(), rows(choices@)),
        choices@.len() == number_of_choices(pattern.groups()),
        forall|i: int|
            0 <= i < choices@.len() ==> same_counts(
                #[trigger] rows(choices@)[i],
                choice_at(groups_in_ids(entry_names(deck@), pattern.groups()), i),
            ),
{
    let ghost entries = entry_names(deck@);
    let ghost groups = pattern.groups();
    let mut id_groups: Vec<Vec<usize>> = Vec::new();
    id_groups.push(group_ids(deck, &pattern.first));
    match (&pattern.second, &pattern.third) {
        (Some(second), None) => {
            id_groups.push(group_ids(deck, second));
        },
        (Some(second), Some(third)) => {
            id_groups.push(group_ids(deck, second));
            id_groups.push(group_ids(deck, third));
        },
        (None, _) => {},
    }
    assert(rows(id_groups@).len() == groups.len());
    assert forall|g: int| 0 <= g < groups.len() implies rows(id_groups@)[g] == ids_of(
        entries,
        groups[g],
    ) by {}
    assert(rows(id_groups@) =~= groups_in_ids(entries, groups));
    proof {
        lemma_number_of_choices_in_ids(entries, groups);
    }
    let product = cartesian_product(&id_groups);
    let mut choices: Vec<Vec<usize>> = Vec::new();
    let mut i: usize = 0;
    while i < product.len()
        invariant
            i <= product.len(),
            choices.len() == i,
            forall|j: int| 0 <= j < i ==> ascending(#[trigger] rows(choices@)[j]),
            forall|j: int|
                0 <= j < i ==> same_counts(#[trigger] rows(choices@)[j], rows(product@)[j]),
        decreases product.len() - i,
    {
        let mut row = product[i].clone();
        assert(row@ =~= product[i as int]@);
        sort_ids(&mut row);
        let ghost before = rows(choices@);
        choices.push(row);
        proof {
            assert forall|j: int| 0 <= j < i + 1 implies ascending(#[trigger] rows(choices@)[j])
                && same_counts(rows(choices@)[j], rows(product@)[j]) by {
                if j < i {
                    assert(rows(choices@)[j] == before[j]);
                }
            }
        }
        i = i + 1;
    }
    proof {
        let sorted = rows(choices@);
        let raw = rows(product@);
        assert forall|j: int| 0 <= j < sorted.len() implies is_choice_in_ids(
            entries,
            groups,
            #[trigger] sorted[j],
        ) by {
            lemma_choice_at_is_choice(rows(id_groups@), j);
            assert(is_choice(rows(id_groups@), raw[j]));
            lemma_choice_from_ids(entries, groups, rows(id_groups@), raw[j]);
            let choice = choose|choice: Seq<Seq<char>>| #[trigger]
                is_choice(groups, choice) && ids_of(entries, choice) == raw[j];
            assert(same_counts(sorted[j], raw[j]));
            assert(is_choice(groups, choice) && same_counts(sorted[j], ids_of(entries, choice)));
        }
        assert forall|choice: Seq<Seq<char>>| #[trigger] is_choice(groups, choice) implies has_row_for(
            entries,
            sorted,
            choice,
        ) by {
            lemma_choice_to_ids(entries, groups, rows(id_groups@), choice);
            let row = ids_of(entries, choice);
            assert(is_choice(rows(id_groups@), row));
            lemma_choice_has_place(rows(id_groups@), row);
            let j = choose|j: int|
                0 <= j < number_of_choices(rows(id_groups@)) && choice_at(rows(id_groups@), j)
                    == row;
            assert(raw[j] == row);
            assert(same_counts(sorted[j], raw[j]));
        }
    }
    choices
}

/// Whether one of the choices can be read off the sorted hand.
pub fn meets_some_choice(sorted_hand: &Vec<usize>, choices: &Vec<Vec<usize>>) -> (found: bool)
    ensures
        found == some_choice_within(rows(choices@), sorted_hand@),
{
    let mut i: usize = 0;
    while i < choices.len()
        invariant
            i <= choices.len(),
            forall|j: int| 0 <= j < i ==> !is_subsequence(#[trigger] rows(choices@)[j], sorted_hand@),
        decreases choices.len() - i,
    {
        if crate::all_search::lexicographical_superset(
            sorted_hand.as_slice(),
            choices[i].as_slice(),
        ) {
            assert(is_subsequence(rows(choices@)[i as int], sorted_hand@));
            return true;
        }
        i = i + 1;
    }
    false
}

/// A sorted hand can have one of the choices read off it exactly when the
/// hand meets the pattern that the choices stand for.
pub proof fn lemma_choice_within_is_meeting(
    entries: Seq<Seq<char>>,
    groups: Seq<Seq<Seq<char>>>,
    choices: Seq<Seq<usize>>,
    hand: Seq<Seq<char>>,
    sorted_hand: Seq<usize>,
)
    requires
        entries.len() <= usize::MAX,
        stands_for(entries, groups, choices),
        forall|i: int| 0 <= i < hand.len() ==> entries.contains(#[trigger] hand[i]),
        ascending(sorted_hand),
        same_counts(sorted_hand, ids_of(entries, hand)),
    ensures
        some_choice_within(choices, sorted_hand) <==> hand_meets(groups, hand),
{
    let hand_ids = ids_of(entries, hand);
    if some_choice_within(choices, sorted_hand) {
        let i = choose|i: int|
            0 <= i < choices.len() && is_subsequence(#[trigger] choices[i], sorted_hand);
        assert(ascending(choices[i]));
        lemma_ascending_subsequence_covers(choices[i], sorted_hand);
        assert(is_choice_in_ids(entries, groups, choices[i]));
        let choice = choose|choice: Seq<Seq<char>>|
            #[trigger] is_choice(groups, choice) && same_counts(
                choices[i],
                ids_of(entries, choice),
            );
        let wanted = ids_of(entries, choice);
        assert forall|x: usize| count_of(wanted, x) <= #[trigger] count_of(hand_ids, x) by {
            assert(count_of(choices[i], x) <= count_of(sorted_hand, x));
            assert(count_of(choices[i], x) == count_of(wanted, x));
            assert(count_of(sorted_hand, x) == count_of(hand_ids, x));
        }
        lemma_covers_by_ids(entries, hand, choice);
        assert(is_choice(groups, choice) && covers(hand, choice));
    }
    if hand_meets(groups, hand) {
        let choice = choose|choice: Seq<Seq<char>>|
            #[trigger] is_choice(groups, choice) && covers(hand, choice);
        lemma_covers_by_ids(entries, hand, choice);
        let wanted = ids_of(entries, choice);
        assert(is_choice(groups, choice));
        assert(has_row_for(entries, choices, choice));
        let i = choose|i: int|
            0 <= i < choices.len() && same_counts(#[trigger] choices[i], wanted);
        assert(ascending(choices[i]));
        assert forall|x: usize| count_of(choices[i], x) <= #[trigger] count_of(
            sorted_hand,
            x,
        ) by {
            assert(count_of(wanted, x) <= count_of(hand_ids, x));
            assert(count_of(choices[i], x) == count_of(wanted, x));
            assert(count_of(sorted_hand, x) == count_of(hand_ids, x));
        }
        lemma_ascending_subsequence_covers(choices[i], sorted_hand);
        assert(is_subsequence(choices[i], sorted_hand));
    }
}

} // verus!
