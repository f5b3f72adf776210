use authorship::tally::Tally;

#[test]
fn a_tally_adds_up_per_key() {
    let mut t: Tally<String> = Tally::new();
    assert!(t.add(&"a".to_string(), 1));
    assert!(t.add(&"b".to_string(), 2));
    assert!(t.add(&"a".to_string(), 3));
    assert_eq!(t.get(&"a".to_string()), 4);
    assert_eq!(t.get(&"b".to_string()), 2);
    assert_eq!(t.get(&"c".to_string()), 0);
    assert!(t.contains(&"a".to_string()));
    assert!(!t.contains(&"c".to_string()));
    assert_eq!(t.pairs(), &vec![("a".to_string(), 4), ("b".to_string(), 2)]);
    assert_eq!(t.into_pairs(), vec![("a".to_string(), 4), ("b".to_string(), 2)]);
}

#[test]
fn a_tally_refuses_a_count_that_does_not_fit() {
    let mut t: Tally<i16> = Tally::new();
    assert!(t.add(&1, u64::MAX - 1));
    assert!(!t.add(&1, 2));
    assert_eq!(t.get(&1), u64::MAX - 1);
    assert!(t.add(&1, 1));
    assert_eq!(t.get(&1), u64::MAX);
    assert!(t.add(&1, 0));
    assert!(t.add(&2, u64::MAX));
    assert_eq!(t.into_pairs(), vec![(1, u64::MAX), (2, u64::MAX)]);
}

#[test]
fn a_zero_count_still_holds_its_key() {
    let mut t: Tally<i16> = Tally::new();
    assert!(t.add(&5, 0));
    assert!(t.contains(&5));
    assert_eq!(t.get(&5), 0);
}
