use avl_map::map::AvlMap;

#[test]
fn test_get() {
    let mut map = AvlMap::new();
    map.insert(4, "four".to_owned());
    map.insert(1, "one".to_owned());
    map.insert(9, "nine".to_owned());
    assert_eq!(map.get(&1).unwrap(), &"one".to_owned());
}

#[test]
fn test_get_mut() {
    let mut map = AvlMap::new();
    map.insert(4, "four".to_owned());
    map.insert(1, "one".to_owned());
    map.insert(9, "nine".to_owned());
    map.get_mut(&4).unwrap().push_str("_plus");
    let mut it = map.into_iter();
    let mut v = Vec::new();
    while let Some(e) = it.next() {
        v.push(e);
    }
    assert_eq!(
        v,
        [
            (1, "one".to_owned()),
            (4, "four_plus".to_owned()),
            (9, "nine".to_owned()),
        ]
    );
}

#[test]
fn write_through_get_mut_is_seen_by_get() {
    let mut map = AvlMap::new();
    map.insert(4, "four".to_owned());
    map.insert(1, "one".to_owned());
    map.insert(9, "nine".to_owned());
    map.get_mut(&4).unwrap().push_str("_plus");
    assert_eq!(map.get(&4), Some(&"four_plus".to_owned()));
    assert_eq!(map.get(&1), Some(&"one".to_owned()));
    assert_eq!(map.get(&9), Some(&"nine".to_owned()));
    assert_eq!(map.len(), 3);
}

#[test]
fn absent_key_is_not_found() {
    let mut map = AvlMap::new();
    assert_eq!(map.get(&1), None::<&i32>);
    assert!(map.get_mut(&1).is_none());
    map.insert(4, 40);
    map.insert(1, 10);
    map.insert(9, 90);
    assert_eq!(map.get(&0), None);
    assert_eq!(map.get(&5), None);
    assert_eq!(map.get(&10), None);
    assert!(map.get_mut(&5).is_none());
    assert_eq!(map.len(), 3);
}

#[test]
fn every_key_of_a_large_map_is_found_with_its_value() {
    let mut map = AvlMap::new();
    for i in 0..1000 {
        map.insert((i * 37) % 1000, i);
    }
    assert_eq!(map.len(), 1000);
    for i in 0..1000 {
        assert_eq!(map.get(&((i * 37) % 1000)), Some(&i));
    }
    assert_eq!(map.get(&1000), None);
    assert_eq!(map.get(&-1), None);
}
