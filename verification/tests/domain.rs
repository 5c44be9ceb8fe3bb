use deck_analyzer::all_search::deck::{cards_at, expand_deck};
use deck_analyzer::all_search::names::card_id;
use deck_analyzer::domain::string_or_list::holds_name;
use deck_analyzer::domain::{Card, StringOrList};

fn card(name: &str, number: u8) -> Card {
    Card {
        name: name.to_string(),
        number,
    }
}

#[test]
fn single_name_is_its_own_list() {
    let group = StringOrList::String("A".to_string());
    let a = "A".to_string();
    assert_eq!(group.as_vec(), vec![&a]);
    assert_eq!(group.as_set(), vec![&a]);
}

#[test]
fn list_keeps_its_order() {
    let group = StringOrList::List(vec![
        "B".to_string(),
        "A".to_string(),
        "B".to_string(),
        "C".to_string(),
        "A".to_string(),
    ]);
    let (a, b, c) = ("A".to_string(), "B".to_string(), "C".to_string());
    assert_eq!(group.as_vec(), vec![&b, &a, &b, &c, &a]);
    // each name once, where it stands first
    assert_eq!(group.as_set(), vec![&b, &a, &c]);
}

#[test]
fn default_group_is_empty() {
    let group = StringOrList::default();
    assert_eq!(group, StringOrList::List(Vec::new()));
    assert!(group.as_vec().is_empty());
    assert!(group.as_set().is_empty());
}

#[test]
fn holds_name_looks_for_the_name() {
    let (a, b, c) = ("A".to_string(), "B".to_string(), "C".to_string());
    let list = vec![&a, &b];
    assert!(holds_name(&list, &a));
    assert!(holds_name(&list, &b));
    assert!(!holds_name(&list, &c));
    assert!(!holds_name(&Vec::new(), &a));
}

#[test]
fn names_are_numbered_by_their_first_entry() {
    let deck = vec![card("A", 1), card("B", 2), card("A", 3), card("C", 0)];
    assert_eq!(card_id(&deck, &"A".to_string()), 0);
    assert_eq!(card_id(&deck, &"B".to_string()), 1);
    assert_eq!(card_id(&deck, &"C".to_string()), 3);
    // a name that no entry bears
    assert_eq!(card_id(&deck, &"Z".to_string()), 4);
    assert_eq!(card_id(&Vec::new(), &"A".to_string()), 0);
}

#[test]
fn deck_is_laid_out_card_by_card() {
    let deck = vec![card("A", 1), card("B", 2), card("A", 3), card("C", 0)];
    let cards = expand_deck(&deck);
    assert_eq!(cards, vec![0, 1, 1, 0, 0, 0]);
    assert_eq!(cards_at(&cards, &vec![1, 3, 5]), vec![1, 0, 0]);
    assert!(cards_at(&cards, &Vec::new()).is_empty());
    assert!(expand_deck(&Vec::new()).is_empty());
}
