use libjp::MMap;

#[test]
fn get_empty() {
    let mut map = MMap::new();
    assert!(map.get(&1).iter().next().is_none());
    map.insert(1, 2);
    assert!(map.get(&1).iter().next().is_some());
    assert!(map.get(&2).iter().next().is_none());
}

#[test]
fn get_many() {
    let mut map = MMap::new();
    map.insert(1, 2);
    map.insert(1, 3);
    map.insert(1, 2);
    map.insert(1, 1);
    assert_eq!(map.get(&1), vec![1, 2, 3]);
}

#[test]
fn contains() {
    let mut map = MMap::new();
    map.insert(1, 2);
    map.insert(1, 3);
    assert!(map.contains(&1, &2));
    assert!(!map.contains(&2, &1));
    assert!(!map.contains(&1, &4));
}

#[test]
fn pairs_round_trip() {
    let mut map = MMap::new();
    map.insert(1, 2);
    map.insert(1, 3);

    let pairs = map.iter();
    let map2: MMap<i32, i32> = MMap::from_pairs(&pairs);
    assert_eq!(map, map2);
}

#[test]
fn remove_reports_presence_and_drops_empty_keys() {
    let mut map: MMap<u64, u64> = MMap::new();
    map.insert(5, 1);
    assert!(!map.remove(&5, &2));
    assert!(map.remove(&5, &1));
    assert!(!map.remove(&5, &1));
    assert!(map.iter().is_empty());
    assert_eq!(map, MMap::new());
}

#[test]
fn remove_all_drops_one_key() {
    let mut map: MMap<u64, u64> = MMap::new();
    map.insert(1, 10);
    map.insert(2, 20);
    map.insert(2, 21);
    map.insert(3, 30);
    map.remove_all(&2);
    assert_eq!(map.iter(), vec![(1, 10), (3, 30)]);
    assert!(map.get(&2).is_empty());
}

#[test]
fn iter_is_in_key_value_order() {
    let mut map: MMap<u64, u64> = MMap::new();
    map.insert(3, 1);
    map.insert(1, 9);
    map.insert(1, 4);
    map.insert(2, 2);
    map.insert(1, 4);
    assert_eq!(map.iter(), vec![(1, 4), (1, 9), (2, 2), (3, 1)]);
}

#[test]
fn from_pairs_ignores_order_and_repeats() {
    let a: MMap<u64, u64> = MMap::from_pairs(&vec![(2, 1), (1, 1), (2, 1), (1, 0)]);
    let b: MMap<u64, u64> = MMap::from_pairs(&vec![(1, 0), (1, 1), (2, 1)]);
    assert_eq!(a, b);
    assert_eq!(a.iter(), vec![(1, 0), (1, 1), (2, 1)]);
}

#[test]
fn insert_then_remove_leaves_no_trace() {
    let mut map: MMap<u64, u64> = MMap::new();
    map.insert(7, 7);
    let before = map.clone();
    map.insert(8, 1);
    map.insert(7, 3);
    map.remove(&7, &3);
    map.remove(&8, &1);
    assert_eq!(map, before);
}
