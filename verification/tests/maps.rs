use alloy::maps::KeyedMap;

#[test]
fn a_map_holds_one_value_for_every_key() {
    let mut map: KeyedMap<String, bool> = KeyedMap::new();
    assert!(map.is_empty());
    map.insert("a".to_string(), true);
    map.insert("b".to_string(), true);
    map.insert("a".to_string(), false);
    assert_eq!(map.size(), 2);
    assert_eq!(map.get(&"a".to_string()), Some(&false));
    assert_eq!(map.key_at(0), "a");
    assert!(map.value_at(1));
    assert!(map.contains_key(&"b".to_string()));
    assert_eq!(map.remove(&"a".to_string()), Some(false));
    assert_eq!(map.remove(&"a".to_string()), None);
    assert_eq!(map.pop(), Some(("b".to_string(), true)));
    assert_eq!(map.pop(), None);
}

#[test]
fn pairs_and_numbers_are_keys() {
    let mut map: KeyedMap<(String, i32), i32> = KeyedMap::new();
    map.insert(("t".to_string(), 1), 10);
    map.insert(("t".to_string(), 2), 20);
    assert_eq!(map.get(&("t".to_string(), 2)), Some(&20));
    assert_eq!(map.get(&("u".to_string(), 2)), None);
    let mut map: KeyedMap<u32, String> = KeyedMap::new();
    map.insert(3, "x".to_string());
    assert_eq!(map.get(&3), Some(&"x".to_string()));
}
