use handy_grpc::dequemap::DequeBTreeMap;
use handy_grpc::dequemap::Entry;

#[test]
fn test_insert() {
    let to_vec = |map: &DequeBTreeMap<i32, i32>| map.to_vec();

    let mut map = DequeBTreeMap::new();
    map.insert(2, 20);
    map.insert(1, 10);
    map.insert(9, 90);
    assert_eq!(to_vec(&map), [(2, 20), (1, 10), (9, 90)]);

    map.insert(7, 70);
    map.insert(1, 100);
    assert_eq!(to_vec(&map), [(2, 20), (1, 100), (9, 90), (7, 70)]);

    assert_eq!(map.len(), map.iter().len());

    assert_eq!(map.pop_front(), Some((2, 20)));
    assert_eq!(map.pop_back(), Some((7, 70)));
    assert_eq!(to_vec(&map), [(1, 100), (9, 90)]);

    map.insert(3, 30);
    map.insert(7, 70);
    map.insert(9, 900);
    map.push_back(1, 10);
    assert_eq!(to_vec(&map), [(9, 900), (3, 30), (7, 70), (1, 10)]);
    assert_eq!(map.len(), map.iter().len());
}

#[test]
fn test_entry() {
    let to_vec = |map: &DequeBTreeMap<i32, i32>| map.to_vec();

    let mut map = DequeBTreeMap::new();
    map.entry(2).or_insert(20);
    map.entry(1).or_insert(10);
    map.entry(9).or_insert(90);
    map.entry(3).or_insert(30);
    map.entry(5).or_insert(50);
    assert_eq!(map.get(&1), Some(&10));
    assert_eq!(map.get(&2), Some(&20));
    assert_eq!(map.get(&3), Some(&30));
    assert_eq!(map.get(&5), Some(&50));
    assert_eq!(map.get(&9), Some(&90));

    assert_eq!(to_vec(&map), [(2, 20), (1, 10), (9, 90), (3, 30), (5, 50)]);
    assert_eq!(map.len(), map.iter().len());

    map.entry(3).and_modify(|v| *v = 300);

    assert_eq!(to_vec(&map), [(2, 20), (1, 10), (9, 90), (3, 300), (5, 50)]);
    assert_eq!(map.len(), map.iter().len());

    map.entry(7).or_insert_with(|| 70);
    assert_eq!(
        to_vec(&map),
        [(2, 20), (1, 10), (9, 90), (3, 300), (5, 50), (7, 70)]
    );
    assert_eq!(map.len(), map.iter().len());
}

#[test]
fn entry_views_and_defaults() {
    let mut map: DequeBTreeMap<i32, i32> = DequeBTreeMap::new();
    map.insert(4, 40);

    match map.entry(4) {
        Entry::Occupied(o) => {
            assert_eq!(o.key(), &4);
            assert_eq!(o.get(), &40);
            assert_eq!(o.insert(44), 40);
        },
        Entry::Vacant(_) => panic!("key 4 should be present"),
    }
    assert_eq!(map.get(&4), Some(&44));

    match map.entry(8) {
        Entry::Vacant(v) => {
            assert_eq!(v.key(), &8);
            assert_eq!(v.into_key(), 8);
        },
        Entry::Occupied(_) => panic!("key 8 should be absent"),
    }
    assert!(!map.contains_key(&8));

    assert_eq!(map.entry(8).key(), &8);
    *map.entry(8).or_default() += 1;
    assert_eq!(map.get(&8), Some(&1));

    map.entry(6).or_insert_with_key(|k| k * 11);
    assert_eq!(map.get(&6), Some(&66));
    map.entry(6).and_modify(|v| *v += 1).or_insert(0);
    assert_eq!(map.get(&6), Some(&67));
    map.entry(12).and_modify(|v| *v += 1).or_insert(5);
    assert_eq!(map.get(&12), Some(&5));
    assert_eq!(map.to_vec(), [(4, 44), (8, 1), (6, 67), (12, 5)]);
}

#[test]
fn test_dequemap() {
    let to_vec = |map: &DequeBTreeMap<i32, i32>| map.to_vec();

    let mut map = DequeBTreeMap::new();
    map.push_back(2, 20);
    map.push_back(1, 10);
    map.push_back(9, 90);
    map.push_back(3, 30);
    map.push_back(5, 50);
    assert_eq!(map.get(&1), Some(&10));
    assert_eq!(map.get(&2), Some(&20));
    assert_eq!(map.get(&3), Some(&30));
    assert_eq!(map.get(&5), Some(&50));
    assert_eq!(map.get(&9), Some(&90));
    assert_eq!(map.len(), 5);
    assert_eq!(map.pop_front(), Some((2, 20)));
    assert_eq!(map.len(), 4);
    assert_eq!(map.pop_back(), Some((5, 50)));
    assert_eq!(map.len(), 3);
    assert_eq!(to_vec(&map), [(1, 10), (9, 90), (3, 30)]);
    assert_eq!(map.len(), map.iter().len());

    let mut map1: DequeBTreeMap<i32, i32> = DequeBTreeMap::new();
    map1.push_back(7, 70);
    map1.push_back(9, 900);
    map.extend(map1.to_vec());
    assert_eq!(to_vec(&map), [(1, 10), (9, 900), (3, 30), (7, 70)]);
    assert_eq!(map.len(), map.iter().len());

    assert_eq!(map.front(), Some((&1, &10)));
    assert_eq!(map.back(), Some((&7, &70)));

    assert_eq!(to_vec(&map), [(1, 10), (9, 900), (3, 30), (7, 70)]);
    assert_eq!(map.len(), map.iter().len());

    map.remove(&3);
    assert_eq!(to_vec(&map), [(1, 10), (9, 900), (7, 70)]);
    assert_eq!(map.len(), map.iter().len());
}

#[test]
fn test_dequemap_index() {
    let mut map = DequeBTreeMap::new();
    map.push_back(2, 20);
    map.push_back(1, 10);
    map.push_back(9, 90);
    assert_eq!(map.index_mut(1), &mut 10);
    assert_eq!(map.index(2), &90);
}

#[test]
fn test_dequemap_extend() {
    let to_vec = |map: &DequeBTreeMap<i32, i32>| map.to_vec();
    let mut map = DequeBTreeMap::new();
    map.push_back(2, 20);
    map.push_back(1, 10);
    map.push_back(9, 90);
    map.extend(vec![(10, 100), (5, 50)]);
    assert_eq!(to_vec(&map), [(2, 20), (1, 10), (9, 90), (10, 100), (5, 50)]);
    assert_eq!(map.len(), map.iter().len());
}

#[test]
fn test_dequemap_retain() {
    let mut map = DequeBTreeMap::new();
    map.push_back(2, 20);
    map.push_back(1, 10);
    map.push_back(9, 90);
    map.extend(vec![(10, 100), (5, 50)]);

    assert_eq!(map.len(), map.iter().len());
    assert_eq!(map.len(), 5);

    map.retain(|k, _| *k != 10 && *k != 2);

    assert_eq!(map.len(), map.iter().len());
    assert_eq!(map.len(), 3);
}

#[test]
fn dequemap_lookup_and_iteration() {
    let mut map: DequeBTreeMap<u64, String> = DequeBTreeMap::new();
    assert!(map.is_empty());
    assert_eq!(map.get(&7), None);
    assert_eq!(map.remove(&7), None);

    map.push_back(7, "seven".to_string());
    map.push_front(3, "three".to_string());
    assert!(map.contains_key(&7));
    assert!(!map.contains_key(&8));
    assert_eq!(map.get_key_value(&3), Some((&3, &"three".to_string())));

    let mut it = map.iter();
    assert_eq!(it.len(), 2);
    assert_eq!(it.next(), Some((&3, &"three".to_string())));
    assert_eq!(it.next(), Some((&7, &"seven".to_string())));
    assert_eq!(it.next(), None);

    if let Some(v) = map.get_mut(&7) {
        *v = "SEVEN".to_string();
    }
    assert_eq!(map.get(&7), Some(&"SEVEN".to_string()));

    let mut into = map.into_iter();
    assert_eq!(into.len(), 2);
    assert_eq!(into.next(), Some((3, "three".to_string())));
    assert_eq!(into.next(), Some((7, "SEVEN".to_string())));
    assert_eq!(into.next(), None);
}

#[test]
fn dequemap_push_moves_to_end() {
    let mut map: DequeBTreeMap<i32, i32> = DequeBTreeMap::with_capacity(4);
    map.push_back(1, 10);
    map.push_back(2, 20);
    map.push_back(3, 30);
    assert_eq!(map.push_front(2, 200), Some(20));
    assert_eq!(map.to_vec(), [(2, 200), (1, 10), (3, 30)]);
    assert_eq!(map.push_back(2, 2000), Some(200));
    assert_eq!(map.to_vec(), [(1, 10), (3, 30), (2, 2000)]);
    map.reserve(10);
    assert!(map.capacity() >= map.len());
    map.shrink_to_fit();
    assert_eq!(map.to_vec(), [(1, 10), (3, 30), (2, 2000)]);
    map.clear();
    assert!(map.is_empty());
}
