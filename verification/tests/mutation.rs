use avl_map::map::AvlMap;
use std::collections::BTreeMap;

fn entries<V: Clone>(map: &AvlMap<i32, V>) -> Vec<(i32, V)> {
    let mut it = map.iter();
    let mut out = Vec::new();
    while let Some((k, v)) = it.next() {
        out.push((*k, v.clone()));
    }
    out
}

#[test]
fn new_map_is_empty() {
    let map: AvlMap<i32, i32> = AvlMap::new();
    assert_eq!(map.len(), 0);
    assert!(entries(&map).is_empty());
}

#[test]
fn insert_of_a_new_key_returns_none_and_grows_the_map() {
    let mut map = AvlMap::new();
    assert_eq!(map.insert(4, "four"), None);
    assert_eq!(map.len(), 1);
    assert_eq!(map.insert(1, "one"), None);
    assert_eq!(map.len(), 2);
    assert_eq!(map.insert(9, "nine"), None);
    assert_eq!(map.len(), 3);
}

#[test]
fn insert_of_a_held_key_returns_the_old_value_and_keeps_the_count() {
    let mut map = AvlMap::new();
    map.insert(4, "four");
    map.insert(1, "one");
    map.insert(9, "nine");
    assert_eq!(map.insert(4, "vier"), Some("four"));
    assert_eq!(map.len(), 3);
    assert_eq!(map.get(&4), Some(&"vier"));
    assert_eq!(map.insert(4, "quatre"), Some("vier"));
    assert_eq!(map.len(), 3);
    assert_eq!(entries(&map), [(1, "one"), (4, "quatre"), (9, "nine")]);
}

#[test]
fn remove_of_an_absent_key_changes_nothing() {
    let mut map = AvlMap::new();
    map.remove(&3);
    assert_eq!(map.len(), 0);
    map.insert(4, "four");
    map.insert(1, "one");
    map.insert(9, "nine");
    map.remove(&3);
    map.remove(&0);
    map.remove(&10);
    assert_eq!(map.len(), 3);
    assert_eq!(entries(&map), [(1, "one"), (4, "four"), (9, "nine")]);
}

#[test]
fn pop_of_an_absent_key_returns_none_and_changes_nothing() {
    let mut map = AvlMap::new();
    assert_eq!(map.pop(&3), None::<&str>);
    assert_eq!(map.len(), 0);
    map.insert(4, "four");
    map.insert(1, "one");
    assert_eq!(map.pop(&3), None);
    assert_eq!(map.len(), 2);
    assert_eq!(entries(&map), [(1, "one"), (4, "four")]);
}

#[test]
fn remove_takes_the_entry_out() {
    let mut map = AvlMap::new();
    for k in [4, 1, 9, 2, 6, 7] {
        map.insert(k, k * 10);
    }
    map.remove(&4);
    assert_eq!(map.len(), 5);
    assert_eq!(map.get(&4), None);
    assert_eq!(entries(&map), [(1, 10), (2, 20), (6, 60), (7, 70), (9, 90)]);
    map.remove(&4);
    assert_eq!(map.len(), 5);
}

#[test]
fn pop_returns_the_value_it_took_out() {
    let mut map = AvlMap::new();
    for k in [4, 1, 9, 2, 6, 7] {
        map.insert(k, k * 10);
    }
    assert_eq!(map.pop(&6), Some(60));
    assert_eq!(map.len(), 5);
    assert_eq!(map.pop(&6), None);
    assert_eq!(map.len(), 5);
    assert_eq!(map.pop(&1), Some(10));
    assert_eq!(map.pop(&9), Some(90));
    assert_eq!(entries(&map), [(2, 20), (4, 40), (7, 70)]);
}

#[test]
fn removal_of_a_node_with_two_children_puts_its_successor_in_its_place() {
    let mut map = AvlMap::new();
    for k in [50, 30, 70, 20, 40, 60, 80, 65] {
        map.insert(k, ());
    }
    map.remove(&50);
    assert_eq!(
        entries(&map).iter().map(|e| e.0).collect::<Vec<_>>(),
        [20, 30, 40, 60, 65, 70, 80]
    );
    map.remove(&60);
    map.remove(&30);
    assert_eq!(
        entries(&map).iter().map(|e| e.0).collect::<Vec<_>>(),
        [20, 40, 65, 70, 80]
    );
    assert_eq!(map.len(), 5);
}

#[test]
fn removing_every_inserted_key_in_another_order_empties_the_map() {
    let mut map = AvlMap::new();
    let n = 257;
    for i in 0..n {
        map.insert((i * 101) % n, i);
    }
    assert_eq!(map.len(), n as usize);
    for i in 0..n {
        map.remove(&((i * 29 + 7) % n));
    }
    assert_eq!(map.len(), 0);
    assert!(entries(&map).is_empty());
    assert!(map.iter().next().is_none());
    assert_eq!(map.get(&0), None);
    assert_eq!(map.insert(3, 3), None);
    assert_eq!(map.len(), 1);
}

#[test]
fn popping_every_inserted_key_returns_each_value_once() {
    let mut map = AvlMap::new();
    for i in 0..100 {
        map.insert(i, i * 2);
    }
    for i in (0..100).rev() {
        assert_eq!(map.pop(&i), Some(i * 2));
        assert_eq!(map.len(), i as usize);
    }
    assert_eq!(map.pop(&0), None);
    assert_eq!(map.len(), 0);
}

#[test]
fn map_agrees_with_an_ordered_map_of_the_standard_library() {
    let mut map = AvlMap::new();
    let mut model = BTreeMap::new();
    let mut x: u32 = 2463534242;
    for step in 0..5000u32 {
        x ^= x << 13;
        x ^= x >> 17;
        x ^= x << 5;
        let key = (x % 300) as i32;
        match x % 7 {
            0 | 1 | 2 => {
                assert_eq!(map.insert(key, step), model.insert(key, step));
            }
            3 | 4 => {
                assert_eq!(map.pop(&key), model.remove(&key));
            }
            5 => {
                map.remove(&key);
                model.remove(&key);
            }
            _ => {
                assert_eq!(map.get(&key), model.get(&key));
                if let Some(v) = map.get_mut(&key) {
                    *v += 1;
                }
                if let Some(v) = model.get_mut(&key) {
                    *v += 1;
                }
            }
        }
        assert_eq!(map.len(), model.len());
    }
    assert_eq!(
        entries(&map),
        model.iter().map(|(k, v)| (*k, *v)).collect::<Vec<_>>()
    );
}
