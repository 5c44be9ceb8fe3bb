use deck_analyzer::domain::data_structure::CounterSet;

#[test]
fn test_counter_set_base() {
    let mut counter_set = CounterSet::from_vec(vec![
        "A".to_string(),
        "B".to_string(),
        "C".to_string(),
        "A".to_string(),
    ]);

    assert_eq!(counter_set.contains_n(&"A".to_string()), 2);
    assert_eq!(counter_set.contains_n(&"B".to_string()), 1);
    assert_eq!(counter_set.len(), 4);
    assert!(counter_set.is_duplicate());

    counter_set.remove(&"A".to_string());
    counter_set.remove(&"B".to_string());

    assert_eq!(counter_set.contains_n(&"A".to_string()), 1);
    assert_eq!(counter_set.contains_n(&"B".to_string()), 0);
    assert_eq!(counter_set.len(), 2);
    assert!(!counter_set.is_duplicate());
}

#[test]
fn test_counter_set_superset() {
    let counter_set = CounterSet::from_vec(vec![
        "A".to_string(),
        "B".to_string(),
        "C".to_string(),
        "A".to_string(),
    ]);

    let subset = CounterSet::from_vec(vec!["A".to_string(), "B".to_string()]);

    assert!(counter_set.is_superset(&subset));

    let not_subset_1 = CounterSet::from_vec(vec!["A".to_string(), "D".to_string()]);

    assert!(!counter_set.is_superset(&not_subset_1));

    let not_subset_2 =
        CounterSet::from_vec(vec!["A".to_string(), "A".to_string(), "A".to_string()]);

    assert!(!counter_set.is_superset(&not_subset_2));
}

#[test]
fn counter_set_insert_returns() {
    let mut set: CounterSet<u64> = CounterSet::new();
    assert_eq!(set.len(), 0);
    assert!(!set.is_duplicate());
    // absent before: zero
    assert_eq!(set.insert(7), 0);
    // held before: the new count and one more
    assert_eq!(set.insert(7), 3);
    assert_eq!(set.insert(7), 4);
    assert_eq!(set.insert(8), 0);
    assert_eq!(set.contains_n(&7), 3);
    assert_eq!(set.contains_n(&8), 1);
    assert_eq!(set.contains_n(&9), 0);
    assert_eq!(set.len(), 4);
    assert!(set.is_duplicate());
}

#[test]
fn counter_set_remove_returns() {
    let mut set = CounterSet::from_vec(vec![1u64, 1, 1, 2]);
    assert_eq!(set.remove(&1), 2);
    assert_eq!(set.contains_n(&1), 2);
    assert_eq!(set.len(), 3);
    assert_eq!(set.remove(&1), 1);
    assert_eq!(set.remove(&1), 0);
    assert_eq!(set.contains_n(&1), 0);
    assert_eq!(set.len(), 1);
    // nothing left to remove
    assert_eq!(set.remove(&1), 0);
    assert_eq!(set.len(), 1);
    assert_eq!(set.remove(&3), 0);
    assert_eq!(set.len(), 1);
    assert_eq!(set.remove(&2), 0);
    assert_eq!(set.len(), 0);
    assert!(!set.is_duplicate());
}

#[test]
fn counter_set_superset_of_itself_and_of_nothing() {
    let set = CounterSet::from_vec(vec![1u64, 1, 2]);
    let same = CounterSet::from_vec(vec![2u64, 1, 1]);
    let empty: CounterSet<u64> = CounterSet::new();
    assert!(set.is_superset(&same));
    assert!(same.is_superset(&set));
    assert!(set.is_superset(&empty));
    assert!(!empty.is_superset(&set));
    assert!(empty.is_superset(&empty));
}
