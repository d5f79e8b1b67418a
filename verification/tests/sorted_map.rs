use sprite_sheet::sorted_map::{group_by_key, SortedMap};

#[test]
fn new_map_is_empty() {
    let map: SortedMap<u32, u32> = SortedMap::new();
    assert!(map.iter().is_empty());
}

#[test]
fn insert_appends_new_keys_in_order() {
    let mut map: SortedMap<u32, u32> = SortedMap::new();
    map.insert(3, 30);
    map.insert(1, 10);
    map.insert(2, 20);
    assert_eq!(map.iter().to_vec(), vec![(3, 30), (1, 10), (2, 20)]);
}

#[test]
fn insert_updates_existing_key_in_place() {
    let mut map: SortedMap<u32, u32> = SortedMap::new();
    map.insert(3, 30);
    map.insert(1, 10);
    map.insert(3, 31);
    assert_eq!(map.iter().to_vec(), vec![(3, 31), (1, 10)]);
}

#[test]
fn insert_with_string_keys() {
    let mut map: SortedMap<String, u32> = SortedMap::new();
    map.insert("walk".to_string(), 1);
    map.insert("idle".to_string(), 2);
    map.insert("walk".to_string(), 3);
    assert_eq!(map.iter().to_vec(), vec![("walk".to_string(), 3), ("idle".to_string(), 2)]);
}

#[test]
fn delete_removes_the_matching_entry() {
    let mut map: SortedMap<u32, u32> = SortedMap::new();
    map.insert(3, 30);
    map.insert(1, 10);
    map.insert(2, 20);
    map.delete(&1);
    assert_eq!(map.iter().to_vec(), vec![(3, 30), (2, 20)]);
}

#[test]
fn delete_of_missing_key_changes_nothing() {
    let mut map: SortedMap<u32, u32> = SortedMap::new();
    map.insert(3, 30);
    map.delete(&7);
    assert_eq!(map.iter().to_vec(), vec![(3, 30)]);
}

#[test]
fn get_mut_finds_and_updates() {
    let mut map: SortedMap<u32, Vec<u32>> = SortedMap::new();
    map.insert(5, vec![1]);
    map.insert(6, vec![2]);
    match map.get_mut(&6) {
        Some(values) => values.push(3),
        None => panic!("key 6 was inserted"),
    }
    assert!(map.get_mut(&7).is_none());
    assert_eq!(map.iter().to_vec(), vec![(5, vec![1]), (6, vec![2, 3])]);
}

#[test]
fn iter_mut_writes_through() {
    let mut map: SortedMap<u32, u32> = SortedMap::new();
    map.insert(1, 10);
    map.insert(2, 20);
    for entry in map.iter_mut() {
        entry.1 += 1;
    }
    assert_eq!(map.iter().to_vec(), vec![(1, 11), (2, 21)]);
}

#[test]
fn group_by_key_keeps_first_seen_order() {
    let items = vec![(2u32, 'a'), (1, 'b'), (2, 'c'), (3, 'd'), (1, 'e')];
    let groups = group_by_key(items);
    assert_eq!(groups.iter().to_vec(), vec![(2, vec!['a', 'c']), (1, vec!['b', 'e']), (3, vec!['d'])]);
}

#[test]
fn group_by_key_of_nothing_is_empty() {
    let items: Vec<(u32, u32)> = vec![];
    let groups = group_by_key(items);
    assert!(groups.iter().is_empty());
}
