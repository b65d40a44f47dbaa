use rstq::ordhash::OrdHash;

#[test]
fn values_order() {
    let mut m = OrdHash::new();
    m.push_back(1, "one");
    m.push_back(3, "three");
    m.push_back(2, "two");

    assert_eq!(m.len(), 3);
    assert_eq!(m.get(&1).copied(), Some("one"));
    assert_eq!(m.get(&2).copied(), Some("two"));
    assert_eq!(m.get(&3).copied(), Some("three"));

    let values = vec!["one", "three", "two"];
    let mut index: usize = 0;
    while let Some((_k, v)) = m.pop_front() {
        assert_eq!(v, values[index]);
        index += 1;
    }
    assert!(m.is_empty());
}

#[test]
fn remove_and_clear_behavior() {
    let mut m = OrdHash::new();
    m.push_back(200, "y");
    m.push_back(100, "x");

    assert_eq!(m.remove(&100), Some("x"));
    assert_eq!(m.get(&100), None);
    assert_eq!(m.get(&200), Some(&"y"));
    assert_eq!(m.len(), 1);
}

#[test]
fn value_overwrite_and_peek_behaviour() {
    let mut m = OrdHash::new();
    m.push_back(1, "one");
    m.push_back(3, "three");
    m.push_back(2, "two");
    m.push_back(3, "three_updated");
    let values = vec!["one", "two", "three_updated"];
    let mut index: usize = 0;
    while let Some((_k, v)) = m.pop_front() {
        assert_eq!(v, values[index]);
        if let Some(pv) = m.peek_front() {
            assert_eq!(*pv.1, values[index + 1]);
        }
        index += 1;
    }
}

#[test]
fn peek_front_agrees_with_pop_front_on_unique_keys() {
    let mut m = OrdHash::new();
    m.push_back(7, 70);
    m.push_back(5, 50);
    m.push_back(9, 90);

    while let Some(peeked) = m.peek_front() {
        let expected = (peeked.0, *peeked.1);
        let popped = m.pop_front().unwrap();
        assert_eq!(popped, expected);
    }
    assert!(m.is_empty());
    assert_eq!(m.pop_front(), None);
}

#[test]
fn removed_key_is_skipped_by_drain() {
    let mut m = OrdHash::new();
    m.push_back(1, "a");
    m.push_back(2, "b");
    m.push_back(3, "c");
    assert_eq!(m.remove(&2), Some("b"));
    assert_eq!(m.remove(&2), None);
    assert!(!m.is_empty());

    assert_eq!(m.pop_front(), Some((1, "a")));
    assert_eq!(m.pop_front(), Some((3, "c")));
    assert_eq!(m.pop_front(), None);
}

#[test]
fn empty_store_behaviour() {
    let mut m: OrdHash<&str> = OrdHash::new();
    assert_eq!(m.len(), 0);
    assert!(m.is_empty());
    assert_eq!(m.get(&42), None);
    assert_eq!(m.remove(&42), None);
    assert_eq!(m.peek_front().map(|kv| (kv.0, *kv.1)), None);
    assert_eq!(m.pop_front(), None);

    let mut with_cap: OrdHash<u64> = OrdHash::with_capacity(16);
    assert!(with_cap.is_empty());
    with_cap.reserve(8);
    assert!(with_cap.is_empty());

    let defaulted: OrdHash<u64> = Default::default();
    assert!(defaulted.is_empty());
}

#[test]
fn reinserted_key_moves_to_back_of_order() {
    let mut m = OrdHash::new();
    m.push_back(1, 10);
    m.push_back(2, 20);
    m.push_back(1, 11);

    assert_eq!(m.len(), 2);
    assert_eq!(m.get(&1), Some(&11));
    assert_eq!(m.pop_front(), Some((2, 20)));
    assert_eq!(m.pop_front(), Some((1, 11)));
    assert_eq!(m.pop_front(), None);
}
