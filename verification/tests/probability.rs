use deck_analyzer::all_search::{all_search_pattern, NoProgress};
use deck_analyzer::combinations::combination_n;
use deck_analyzer::domain::{Card, InitialPattern, StringOrList};
use deck_analyzer::probability::{
    count_cards, double_pat_prob, pattern_prob, single_pat_prob, triple_pat_prob, Chance,
};
use deck_analyzer::AppError;

fn card(name: &str, number: u8) -> Card {
    Card {
        name: name.to_string(),
        number,
    }
}

fn one(name: &str) -> StringOrList {
    StringOrList::String(name.to_string())
}

fn any(names: &[&str]) -> StringOrList {
    StringOrList::List(names.iter().map(|name| name.to_string()).collect())
}

fn pattern(
    first: StringOrList,
    second: Option<StringOrList>,
    third: Option<StringOrList>,
) -> InitialPattern {
    InitialPattern {
        name: "pattern".to_string(),
        first,
        second,
        third,
        level: 0,
    }
}

fn sample_deck() -> Vec<Card> {
    vec![
        card("A", 3),
        card("B", 3),
        card("C", 2),
        card("D", 2),
        card("E", 1),
    ]
}

#[test]
fn one_group_is_all_hands_but_those_without_it() {
    let deck: Vec<Card> = (0..10).map(|i| card(&format!("c{}", i), 1)).collect();
    let pat = pattern(any(&["c0", "c1", "c2"]), None, None);
    let chance = pattern_prob(&deck, &pat, 3).unwrap();
    assert_eq!(
        chance,
        Chance {
            hits: 120 - 35,
            hands: 120
        }
    );
    assert_eq!(Some(chance.hands), combination_n(10, 3));
    assert_eq!(
        Some(chance.hands - chance.hits),
        combination_n(10 - 3, 3)
    );
}

#[test]
fn one_group_agrees_with_the_search() {
    let deck: Vec<Card> = (0..10).map(|i| card(&format!("c{}", i), 1)).collect();
    let pat = pattern(any(&["c0", "c1", "c2"]), None, None);
    let chance = pattern_prob(&deck, &pat, 3).unwrap();
    let counts = all_search_pattern(&deck, &vec![pat], 3, &mut NoProgress).unwrap();
    assert_eq!(counts.total, chance.hands);
    assert_eq!(counts.pattern_hits, vec![chance.hits]);
}

#[test]
fn three_of_forty_in_five_cards() {
    let deck: Vec<Card> = (0..40).map(|i| card(&format!("c{}", i), 1)).collect();
    let pat = pattern(any(&["c0", "c1", "c2"]), None, None);
    let chance = pattern_prob(&deck, &pat, 5).unwrap();
    assert_eq!(chance.hands, 658008);
    assert_eq!(chance.hits, 658008 - 435897);
    let probability = chance.hits as f64 / chance.hands as f64;
    let expected = 1.0 - 435897.0 / 658008.0;
    assert!((probability - expected).abs() < 1e-12);
    // the same three copies as one entry of the deck
    let mut deck: Vec<Card> = (0..37).map(|i| card(&format!("c{}", i), 1)).collect();
    deck.push(card("three", 3));
    let chance = pattern_prob(&deck, &pattern(one("three"), None, None), 5).unwrap();
    assert_eq!(
        chance,
        Chance {
            hits: 222111,
            hands: 658008
        }
    );
}

#[test]
fn two_and_three_groups_agree_with_the_search_where_groups_share_no_name() {
    let mut deck = sample_deck();
    deck.push(card("F", 5));
    let patterns = vec![
        pattern(one("A"), None, None),
        pattern(one("A"), Some(one("B")), None),
        pattern(any(&["A", "C"]), Some(one("B")), None),
        pattern(one("A"), Some(one("B")), Some(any(&["C", "D"]))),
        pattern(one("A"), Some(one("Z")), None),
    ];
    for draw_n in 0..=5u64 {
        let counts = all_search_pattern(&deck, &patterns, draw_n, &mut NoProgress).unwrap();
        for (i, pat) in patterns.iter().enumerate() {
            let chance = pattern_prob(&deck, pat, draw_n).unwrap();
            assert_eq!(chance.hands, counts.total);
            assert_eq!(chance.hits, counts.pattern_hits[i]);
        }
    }
}

#[test]
fn exact_values_of_two_groups() {
    let deck = sample_deck();
    assert_eq!(
        double_pat_prob(&deck, &one("A"), &one("B"), 4),
        Ok(Chance {
            hits: 195,
            hands: 330
        })
    );
    assert_eq!(
        single_pat_prob(&deck, &one("A"), 4),
        Ok(Chance {
            hits: 260,
            hands: 330
        })
    );
    // a name that stands in both groups is counted once
    assert_eq!(
        double_pat_prob(&deck, &any(&["A", "B"]), &any(&["B", "C"]), 3),
        Ok(Chance {
            hits: 136,
            hands: 165
        })
    );
    assert_eq!(
        double_pat_prob(&deck, &any(&["A", "Z"]), &one("A"), 4),
        Ok(Chance {
            hits: 260,
            hands: 330
        })
    );
}

#[test]
fn exact_value_of_three_groups() {
    let deck = sample_deck();
    // 165 hands; without A: 56, without B: 56, without C or D: 35,
    // without A and B: 10, without B, C and D: 4, without C, D and A: 4,
    // without any of them: fewer than three cards are left
    assert_eq!(
        triple_pat_prob(&deck, &one("A"), &one("B"), &any(&["C", "D"]), 3),
        Err(AppError::OverflowCombinationError)
    );
    // with one card left beside the groups the last count is that of one hand
    assert_eq!(
        triple_pat_prob(&deck, &one("A"), &one("B"), &any(&["C", "D"]), 1),
        Ok(Chance { hits: 0, hands: 11 })
    );
    assert_eq!(
        triple_pat_prob(&deck, &one("A"), &one("B"), &one("C"), 3),
        Ok(Chance {
            hits: 18,
            hands: 165
        })
    );
}

#[test]
fn fails_where_too_few_cards_are_left_beside_a_group() {
    let deck = sample_deck();
    // all eleven cards are in a group: no hand of four is left without them
    let pat = pattern(any(&["A", "C"]), Some(any(&["B", "D"])), Some(one("E")));
    assert_eq!(
        pattern_prob(&deck, &pat, 4),
        Err(AppError::OverflowCombinationError)
    );
    assert_eq!(
        pattern_prob(&deck, &pattern(one("A"), None, None), 12),
        Err(AppError::OverflowCombinationError)
    );
}

#[test]
fn fails_on_third_without_second() {
    let deck = sample_deck();
    let pat = pattern(one("A"), None, Some(one("B")));
    assert_eq!(
        pattern_prob(&deck, &pat, 4),
        Err(AppError::InvalidDataError("invalid pattern".to_string()))
    );
}

#[test]
fn fails_where_the_hands_cannot_be_counted() {
    let deck: Vec<Card> = (0..70).map(|i| card(&format!("c{}", i), 1)).collect();
    assert_eq!(
        pattern_prob(&deck, &pattern(one("c0"), None, None), 35),
        Err(AppError::OverflowCombinationError)
    );
}

#[test]
fn counts_the_cards() {
    assert_eq!(count_cards(&sample_deck()), 11);
    assert_eq!(count_cards(&Vec::new()), 0);
}
