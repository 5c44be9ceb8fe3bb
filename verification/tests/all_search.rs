use deck_analyzer::all_search::choices::pattern_choices;
use deck_analyzer::all_search::{
    all_search_pattern, all_search_pattern_exact_levels, lexicographical_superset, op_max,
    AllSearchCounts, NoProgress, ProgressSink,
};
use deck_analyzer::combinations::combination_n;
use deck_analyzer::domain::{Card, InitialPattern, StringOrList};
use deck_analyzer::AppError;

fn card(name: &str, number: u8) -> Card {
    Card {
        name: name.to_string(),
        number,
    }
}

fn one(name: &str) -> StringOrList {
    StringOrList::String(name.to_string())
}

fn any(names: &[&str]) -> StringOrList {
    StringOrList::List(names.iter().map(|name| name.to_string()).collect())
}

fn pattern(
    first: StringOrList,
    second: Option<StringOrList>,
    third: Option<StringOrList>,
    level: u8,
) -> InitialPattern {
    InitialPattern {
        name: "pattern".to_string(),
        first,
        second,
        third,
        level,
    }
}

fn sample_deck() -> Vec<Card> {
    vec![
        card("A", 3),
        card("B", 3),
        card("C", 2),
        card("D", 2),
        card("E", 1),
    ]
}

fn sample_patterns() -> Vec<InitialPattern> {
    vec![
        pattern(one("A"), None, None, 0),
        pattern(one("A"), Some(one("B")), None, 1),
        pattern(
            any(&["A", "C"]),
            Some(any(&["B", "D"])),
            Some(one("E")),
            2,
        ),
        pattern(one("A"), Some(one("A")), None, 1),
        pattern(one("Z"), None, None, 3),
        pattern(any(&["A", "Z"]), Some(one("A")), None, 0),
    ]
}

struct Ticks {
    total: Option<u64>,
    seen: Vec<u64>,
}

impl ProgressSink for Ticks {
    fn start(&mut self, total: u64) {
        self.total = Some(total);
    }

    fn advance(&mut self, seen: u64) {
        self.seen.push(seen);
    }
}

#[test]
fn all_search_test_lexicographical_superset() {
    let hands = vec!["A", "B", "C", "D", "E"];
    let pattern_1 = vec!["C", "D"];
    assert!(lexicographical_superset(&hands, &pattern_1));

    let pattern_2 = vec!["C", "F"];
    assert!(!lexicographical_superset(&hands, &pattern_2));

    let pattern_3 = vec!["C", "B"];
    assert!(!lexicographical_superset(&hands, &pattern_3));
}

#[test]
fn all_search_v1_test_lexicographical_superset() {
    let hands = vec!["A", "B", "C", "D", "E"];
    let pattern_1 = vec!["C", "D"];
    assert!(lexicographical_superset(&hands, &pattern_1));

    let pattern_2 = vec!["C", "F"];
    assert!(!lexicographical_superset(&hands, &pattern_2));

    let pattern_3 = vec!["C", "B"];
    assert!(!lexicographical_superset(&hands, &pattern_3));
}

#[test]
fn superset_edge_cases() {
    let empty: Vec<u32> = vec![];
    assert!(lexicographical_superset(&empty, &empty));
    assert!(lexicographical_superset(&[1u32, 2], &empty));
    assert!(!lexicographical_superset(&empty, &[1u32]));
    assert!(lexicographical_superset(&[1u32, 1, 2], &[1, 1]));
    assert!(!lexicographical_superset(&[1u32, 2, 2], &[1, 1]));
    assert!(lexicographical_superset(&[1u32, 2, 3], &[1, 2, 3]));
    assert!(!lexicographical_superset(&[1u32, 2], &[1, 2, 3]));
    assert!(lexicographical_superset(&[1u32, 2, 3], &[3]));
}

#[test]
fn op_max_takes_the_larger() {
    assert_eq!(op_max(None, None), None);
    assert_eq!(op_max(Some(2), None), Some(2));
    assert_eq!(op_max(None, Some(3)), Some(3));
    assert_eq!(op_max(Some(2), Some(3)), Some(3));
    assert_eq!(op_max(Some(3), Some(2)), Some(3));
    assert_eq!(op_max(Some(3), Some(3)), Some(3));
}

#[test]
fn choices_are_products_in_sorted_numbers() {
    let deck = vec![card("A", 1), card("B", 1), card("C", 1)];
    // numbers: A is 0, B is 1, C is 2, a name that no card bears is 3
    let two = pattern(any(&["C", "A"]), Some(one("B")), None, 0);
    assert_eq!(pattern_choices(&deck, &two), vec![vec![1, 2], vec![0, 1]]);

    let single = pattern(any(&["C", "A", "Z"]), None, None, 0);
    assert_eq!(
        pattern_choices(&deck, &single),
        vec![vec![2], vec![0], vec![3]]
    );

    // the last group changes fastest
    let three = pattern(
        any(&["C", "B"]),
        Some(any(&["B", "A"])),
        Some(one("A")),
        0,
    );
    assert_eq!(
        pattern_choices(&deck, &three),
        vec![vec![0, 1, 2], vec![0, 0, 2], vec![0, 1, 1], vec![0, 0, 1]]
    );
    let wide = pattern(one("A"), Some(any(&["A", "B", "C"])), None, 0);
    assert_eq!(
        pattern_choices(&deck, &wide),
        vec![vec![0, 0], vec![0, 1], vec![0, 2]]
    );

    let none = pattern(any(&[]), Some(one("A")), None, 0);
    assert!(pattern_choices(&deck, &none).is_empty());
    let none = pattern(one("A"), Some(any(&[])), None, 0);
    assert!(pattern_choices(&deck, &none).is_empty());
}

#[test]
fn search_counts_every_pattern_and_level() {
    let result = all_search_pattern(&sample_deck(), &sample_patterns(), 4, &mut NoProgress);
    assert_eq!(
        result,
        Ok(AllSearchCounts {
            pattern_hits: vec![260, 195, 100, 92, 0, 92],
            level_hits: vec![285, 270, 100, 0],
            total: 330,
        })
    );
}

#[test]
fn search_counts_levels_one_by_one_on_demand() {
    let result =
        all_search_pattern_exact_levels(&sample_deck(), &sample_patterns(), 4, &mut NoProgress);
    assert_eq!(
        result,
        Ok(AllSearchCounts {
            pattern_hits: vec![260, 195, 100, 92, 0, 92],
            level_hits: vec![260, 230, 100, 0],
            total: 330,
        })
    );
    let deck = vec![
        card("A", 1),
        card("B", 1),
        card("A", 1),
        card("C", 2),
    ];
    let patterns = vec![
        pattern(one("A"), Some(one("A")), None, 0),
        pattern(any(&["C", "B"]), Some(one("A")), None, 1),
    ];
    let counts = all_search_pattern_exact_levels(&deck, &patterns, 3, &mut NoProgress).unwrap();
    assert_eq!(counts.pattern_hits, vec![3, 9]);
    assert_eq!(counts.level_hits, vec![3, 9]);
    assert_eq!(
        all_search_pattern_exact_levels(&deck, &Vec::new(), 3, &mut NoProgress),
        Err(AppError::InvalidDataError(
            "Invalid init_patterns.".to_string()
        ))
    );
}

#[test]
fn search_matches_exact_count_of_one_group() {
    let deck: Vec<Card> = (0..10).map(|i| card(&format!("c{}", i), 1)).collect();
    let patterns = vec![pattern(any(&["c0", "c1", "c2"]), None, None, 0)];
    let counts = all_search_pattern(&deck, &patterns, 3, &mut NoProgress).unwrap();
    assert_eq!(counts.total, 120);
    assert_eq!(counts.pattern_hits, vec![120 - 35]);
    assert_eq!(counts.level_hits, vec![85]);
}

#[test]
fn search_needs_two_copies_for_a_name_wanted_twice() {
    let deck = vec![card("A", 2), card("B", 2)];
    let patterns = vec![
        pattern(one("A"), Some(one("A")), None, 0),
        pattern(one("A"), Some(one("B")), None, 0),
    ];
    let counts = all_search_pattern(&deck, &patterns, 2, &mut NoProgress).unwrap();
    assert_eq!(counts.pattern_hits, vec![1, 4]);
    assert_eq!(counts.level_hits, vec![5]);
    assert_eq!(counts.total, 6);
}

#[test]
fn search_takes_entries_of_one_name_together() {
    let deck = vec![
        card("A", 1),
        card("B", 1),
        card("A", 1),
        card("C", 2),
    ];
    let patterns = vec![
        pattern(one("A"), Some(one("A")), None, 0),
        pattern(any(&["C", "B"]), Some(one("A")), None, 1),
    ];
    let counts = all_search_pattern(&deck, &patterns, 3, &mut NoProgress).unwrap();
    assert_eq!(counts.pattern_hits, vec![3, 9]);
    assert_eq!(counts.level_hits, vec![9, 9]);
    assert_eq!(counts.total, 10);
}

#[test]
fn search_total_is_the_number_of_combinations() {
    let deck = sample_deck();
    let patterns = sample_patterns();
    for draw_n in 0..=11u64 {
        let counts = all_search_pattern(&deck, &patterns, draw_n, &mut NoProgress).unwrap();
        assert_eq!(Some(counts.total), combination_n(11, draw_n));
        for hits in counts.pattern_hits.iter() {
            assert!(*hits <= counts.total);
        }
    }
}

#[test]
fn search_levels_do_not_rise() {
    let deck = sample_deck();
    let patterns = sample_patterns();
    for draw_n in 0..=11u64 {
        let counts = all_search_pattern(&deck, &patterns, draw_n, &mut NoProgress).unwrap();
        assert_eq!(counts.level_hits.len(), 4);
        for level in 1..counts.level_hits.len() {
            assert!(counts.level_hits[level - 1] >= counts.level_hits[level]);
        }
    }
}

#[test]
fn search_of_empty_hands() {
    let counts = all_search_pattern(&sample_deck(), &sample_patterns(), 0, &mut NoProgress)
        .unwrap();
    assert_eq!(counts.total, 1);
    assert_eq!(counts.pattern_hits, vec![0, 0, 0, 0, 0, 0]);
    assert_eq!(counts.level_hits, vec![0, 0, 0, 0]);
}

#[test]
fn search_ticks_once_for_each_hand() {
    let mut ticks = Ticks {
        total: None,
        seen: Vec::new(),
    };
    let counts = all_search_pattern(&sample_deck(), &sample_patterns(), 2, &mut ticks).unwrap();
    assert_eq!(counts.total, 55);
    assert_eq!(ticks.total, Some(55));
    assert_eq!(ticks.seen, (1..=55).collect::<Vec<u64>>());
}

#[test]
fn search_without_patterns_fails() {
    let result = all_search_pattern(&sample_deck(), &Vec::new(), 4, &mut NoProgress);
    assert_eq!(
        result,
        Err(AppError::InvalidDataError(
            "Invalid init_patterns.".to_string()
        ))
    );
}

#[test]
fn search_with_third_and_no_second_fails() {
    let patterns = vec![
        pattern(one("A"), None, None, 0),
        pattern(one("A"), None, Some(one("B")), 1),
    ];
    let result = all_search_pattern(&sample_deck(), &patterns, 4, &mut NoProgress);
    assert_eq!(
        result,
        Err(AppError::InvalidDataError("Invalid init_patters".to_string()))
    );
}

#[test]
fn search_of_more_cards_than_the_deck_fails() {
    let patterns = vec![pattern(one("A"), None, None, 0)];
    let result = all_search_pattern(&sample_deck(), &patterns, 12, &mut NoProgress);
    assert_eq!(result, Err(AppError::OverflowCombinationError));
}

#[test]
fn error_messages() {
    assert_eq!(
        AppError::InvalidDataError("invalid pattern".to_string()).message(),
        "AppError::InvalidDataError: invalid pattern"
    );
    assert_eq!(
        AppError::OverflowCombinationError.message(),
        "AppError::OverflowCombinationError: overflowed combination."
    );
}
