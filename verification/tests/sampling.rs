use deck_analyzer::domain::Card;
use deck_analyzer::sampling::DeckInstance;

use std::collections::HashSet;

fn sample_deck() -> Vec<Card> {
    vec![
        Card {
            name: "強欲な壺".to_string(),
            number: 3,
        },
        Card {
            name: "ブラック・マジシャン".to_string(),
            number: 3,
        },
        Card {
            name: "幻獣王ガゼル".to_string(),
            number: 3,
        },
        Card {
            name: "暗黒騎士ガイア".to_string(),
            number: 3,
        },
        Card {
            name: "エルフの剣士".to_string(),
            number: 3,
        },
    ]
}

#[test]
fn test_deck_instance() {
    let deck = sample_deck();

    let mut card_name_pool = HashSet::new();
    card_name_pool.insert("強欲な壺".to_string());
    card_name_pool.insert("ブラック・マジシャン".to_string());
    card_name_pool.insert("幻獣王ガゼル".to_string());
    card_name_pool.insert("暗黒騎士ガイア".to_string());
    card_name_pool.insert("エルフの剣士".to_string());

    let mut deck_instance = DeckInstance::new(&deck);
    deck_instance.shuffle();

    assert_eq!(deck_instance.deck().len(), 15);
    assert_eq!(deck_instance.hands().len(), 0);

    deck_instance.draw(5);
    assert_eq!(deck_instance.deck().len(), 10);
    assert_eq!(deck_instance.hands().len(), 5);

    for card_name in deck_instance.deck() {
        assert!(card_name_pool.contains(card_name));
    }
}

#[test]
fn new_deck_is_laid_out_in_order() {
    let deck = vec![
        Card {
            name: "A".to_string(),
            number: 2,
        },
        Card {
            name: "B".to_string(),
            number: 0,
        },
        Card {
            name: "C".to_string(),
            number: 1,
        },
    ];
    let instance = DeckInstance::new(&deck);
    assert_eq!(instance.deck(), ["A".to_string(), "A".to_string(), "C".to_string()]);
    assert!(instance.hands().is_empty());
}

#[test]
fn draw_takes_from_the_top() {
    let deck = vec![
        Card {
            name: "A".to_string(),
            number: 2,
        },
        Card {
            name: "B".to_string(),
            number: 1,
        },
        Card {
            name: "C".to_string(),
            number: 1,
        },
    ];
    let mut instance = DeckInstance::new(&deck);
    instance.draw(0);
    assert_eq!(instance.deck().len(), 4);
    instance.draw(3);
    assert_eq!(instance.deck(), ["A".to_string()]);
    assert_eq!(
        instance.hands(),
        ["C".to_string(), "B".to_string(), "A".to_string()]
    );
    instance.draw(1);
    assert!(instance.deck().is_empty());
    assert_eq!(instance.hands().len(), 4);
}

#[test]
fn shuffle_keeps_every_card() {
    let deck = sample_deck();
    let mut instance = DeckInstance::new(&deck);
    let mut before: Vec<String> = instance.deck().to_vec();
    instance.shuffle();
    let mut after: Vec<String> = instance.deck().to_vec();
    before.sort();
    after.sort();
    assert_eq!(before, after);
    assert!(instance.hands().is_empty());
}
