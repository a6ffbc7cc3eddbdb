use avl_map::iter::{AvlMapIter, Split};
use avl_map::map::AvlMap;

fn forward<NT: Split>(mut it: AvlMapIter<NT>) -> Vec<NT::ET> {
    let mut out = Vec::new();
    while let Some(e) = it.next() {
        out.push(e);
    }
    out
}

fn backward<NT: Split>(mut it: AvlMapIter<NT>) -> Vec<NT::ET> {
    let mut out = Vec::new();
    while let Some(e) = it.next_back() {
        out.push(e);
    }
    out
}

fn six() -> AvlMap<i32, &'static str> {
    let mut map = AvlMap::new();
    map.insert(4, "four");
    map.insert(1, "one");
    map.insert(9, "nine");
    map.insert(2, "two");
    map.insert(6, "six");
    map.insert(7, "seven");
    map
}

#[test]
fn it_works() {
    assert_eq!(2 + 2, 4);
}

#[test]
fn test_iter() {
    let mut map = AvlMap::new();
    map.insert(4, "four");
    map.insert(1, "one");
    map.insert(9, "nine");
    map.insert(2, "two");
    map.insert(6, "six");
    map.insert(7, "seven");
    let v = forward(map.into_iter());
    assert_eq!(
        v,
        [
            (1, "one"),
            (2, "two"),
            (4, "four"),
            (6, "six"),
            (7, "seven"),
            (9, "nine"),
        ]
    );
}

#[test]
fn test_ref_iter() {
    let mut map = AvlMap::new();
    map.insert(4, "four");
    map.insert(1, "one");
    map.insert(9, "nine");
    map.insert(2, "two");
    map.insert(6, "six");
    map.insert(7, "seven");
    let v = forward(map.iter());
    assert_eq!((&1, &"one"), map.iter().next().unwrap());
    assert_eq!(
        v,
        [
            (&1, &"one"),
            (&2, &"two"),
            (&4, &"four"),
            (&6, &"six"),
            (&7, &"seven"),
            (&9, &"nine"),
        ]
    );
}

#[test]
fn test_mut_iter() {
    let mut map = AvlMap::new();
    map.insert(4, "four".to_owned());
    map.insert(1, "one".to_owned());
    map.insert(9, "nine".to_owned());
    map.insert(2, "two".to_owned());
    map.insert(6, "six".to_owned());
    map.insert(7, "seven".to_owned());
    let mut it = map.iter_mut();
    while let Some((_, v)) = it.next() {
        v.push_str("_plus");
    }
    let v = forward(map.into_iter());
    assert_eq!(
        v,
        [
            (1, "one_plus".to_owned()),
            (2, "two_plus".to_owned()),
            (4, "four_plus".to_owned()),
            (6, "six_plus".to_owned()),
            (7, "seven_plus".to_owned()),
            (9, "nine_plus".to_owned()),
        ]
    );
}

#[test]
fn test_reverse_iter() {
    let mut map = AvlMap::new();
    map.insert(4, "four");
    map.insert(1, "one");
    map.insert(9, "nine");
    map.insert(2, "two");
    map.insert(6, "six");
    map.insert(7, "seven");
    let v = backward(map.into_iter());
    assert_eq!(
        v,
        [
            (9, "nine"),
            (7, "seven"),
            (6, "six"),
            (4, "four"),
            (2, "two"),
            (1, "one"),
        ]
    );
}

#[test]
fn reverse_of_borrowed_traversal() {
    let map = six();
    let v = backward(map.iter());
    assert_eq!(
        v,
        [
            (&9, &"nine"),
            (&7, &"seven"),
            (&6, &"six"),
            (&4, &"four"),
            (&2, &"two"),
            (&1, &"one"),
        ]
    );
    assert_eq!(map.len(), 6);
}

#[test]
fn reverse_of_writing_traversal_touches_every_value_once() {
    let mut map = AvlMap::new();
    for k in [4, 1, 9, 2, 6, 7] {
        map.insert(k, k * 10);
    }
    let mut seen = Vec::new();
    let mut it = map.iter_mut();
    while let Some((k, v)) = it.next_back() {
        seen.push(*k);
        *v += 1;
    }
    assert_eq!(seen, [9, 7, 6, 4, 2, 1]);
    assert_eq!(
        forward(map.into_iter()),
        [(1, 11), (2, 21), (4, 41), (6, 61), (7, 71), (9, 91)]
    );
}

#[test]
fn empty_map_gives_nothing_from_either_end() {
    let map: AvlMap<i32, i32> = AvlMap::new();
    let mut it = map.iter();
    assert_eq!(it.len(), 0);
    assert_eq!(it.size_hint(), (0, Some(0)));
    assert!(it.next().is_none());
    assert!(it.next_back().is_none());
    assert!(it.next().is_none());
    assert_eq!(it.len(), 0);
    assert!(forward(map.into_iter()).is_empty());
}

#[test]
fn single_entry_comes_once_from_the_back() {
    let mut map = AvlMap::new();
    map.insert(5, "five");
    let mut it = map.into_iter();
    assert_eq!(it.len(), 1);
    assert_eq!(it.next_back(), Some((5, "five")));
    assert_eq!(it.len(), 0);
    assert_eq!(it.next(), None);
    assert_eq!(it.next_back(), None);
}

#[test]
fn pulls_from_both_ends_meet_without_overlap() {
    let map = six();
    let mut it = map.into_iter();
    assert_eq!(it.next(), Some((1, "one")));
    assert_eq!(it.next_back(), Some((9, "nine")));
    assert_eq!(it.next_back(), Some((7, "seven")));
    assert_eq!(it.next(), Some((2, "two")));
    assert_eq!(it.next(), Some((4, "four")));
    assert_eq!(it.next_back(), Some((6, "six")));
    assert_eq!(it.next(), None);
    assert_eq!(it.next_back(), None);
}

#[test]
fn remaining_count_falls_by_one_with_every_pull() {
    let map = six();
    let mut it = map.iter();
    assert_eq!(it.len(), 6);
    assert_eq!(it.size_hint(), (6, Some(6)));
    it.next();
    assert_eq!(it.len(), 5);
    it.next_back();
    assert_eq!(it.len(), 4);
    it.next_back();
    assert_eq!(it.len(), 3);
    it.next();
    assert_eq!(it.size_hint(), (2, Some(2)));
    it.next();
    it.next();
    assert_eq!(it.len(), 0);
    assert!(it.next().is_none());
    assert!(it.next_back().is_none());
    assert_eq!(it.len(), 0);
    assert_eq!(it.size_hint(), (0, Some(0)));
}

#[test]
fn every_interleaving_of_three_pulls_partitions_the_entries() {
    for pattern in 0u32..64 {
        let mut map = AvlMap::new();
        for k in [4, 1, 9, 2, 6, 7] {
            map.insert(k, ());
        }
        let mut it = map.iter();
        let mut front = Vec::new();
        let mut back = Vec::new();
        for step in 0..6 {
            let before = it.len();
            if pattern >> step & 1 == 0 {
                front.push(*it.next().unwrap().0);
            } else {
                back.push(*it.next_back().unwrap().0);
            }
            assert_eq!(it.len(), before - 1);
        }
        assert!(it.next().is_none());
        back.reverse();
        front.extend(back);
        assert_eq!(front, [1, 2, 4, 6, 7, 9]);
    }
}

#[test]
fn traversal_ascends_after_ascending_descending_and_mixed_inserts() {
    let mut up = AvlMap::new();
    let mut down = AvlMap::new();
    let mut mixed = AvlMap::new();
    let mut x: u32 = 12345;
    for i in 0..500 {
        up.insert(i, i);
        down.insert(499 - i, i);
        x = x.wrapping_mul(1103515245).wrapping_add(12345);
        mixed.insert((x >> 8) % 1000, i);
    }
    for keys in [
        forward(up.iter()).into_iter().map(|e| *e.0 as u32).collect::<Vec<_>>(),
        forward(down.iter()).into_iter().map(|e| *e.0 as u32).collect::<Vec<_>>(),
        forward(mixed.iter()).into_iter().map(|e| *e.0).collect::<Vec<_>>(),
    ] {
        assert!(keys.windows(2).all(|w| w[0] < w[1]));
    }
    assert_eq!(up.len(), 500);
    assert_eq!(down.len(), 500);
    assert_eq!(mixed.len(), forward(mixed.iter()).len());
}
