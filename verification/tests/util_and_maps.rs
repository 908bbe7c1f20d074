use poker_onchain::idmap::IdMap;
use poker_onchain::textutil::u64_to_string;

#[test]
fn decimal_rendering_is_exact() {
    assert_eq!(u64_to_string(0), "0");
    assert_eq!(u64_to_string(7), "7");
    assert_eq!(u64_to_string(10), "10");
    assert_eq!(u64_to_string(12345), "12345");
    assert_eq!(u64_to_string(u64::MAX), "18446744073709551615");
}

#[test]
fn idmap_insert_get_and_replace() {
    let mut m: IdMap<&'static str> = IdMap::new();
    assert_eq!(m.len(), 0);
    m.insert(5, "five");
    m.insert(1, "one");
    m.insert(9, "nine");
    assert_eq!(m.len(), 3);
    assert_eq!(m.get(5), Some(&"five"));
    assert_eq!(m.get(1), Some(&"one"));
    assert_eq!(m.get(2), None);
    m.insert(5, "FIVE");
    assert_eq!(m.len(), 3);
    assert_eq!(m.get(5), Some(&"FIVE"));
}

#[test]
fn idmap_iterates_in_ascending_key_order() {
    let mut m: IdMap<u64> = IdMap::new();
    m.insert(30, 3);
    m.insert(10, 1);
    m.insert(20, 2);
    assert_eq!(m.keys(), vec![10, 20, 30]);
    assert_eq!(m.key_at(0), 10);
    assert_eq!(*m.val_at(0), 1);
    assert_eq!(m.key_at(2), 30);
}

#[test]
fn idmap_remove_and_take() {
    let mut m: IdMap<u64> = IdMap::new();
    m.insert(1, 11);
    m.insert(2, 22);
    m.remove(1);
    assert_eq!(m.get(1), None);
    assert_eq!(m.len(), 1);
    assert_eq!(m.take(2), Some(22));
    assert_eq!(m.take(2), None);
    assert_eq!(m.len(), 0);
}
