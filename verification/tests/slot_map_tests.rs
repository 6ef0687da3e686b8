use slot_tree::slot_map::SlotMap;

#[test]
fn empty_map_has_no_free_slot() {
    let map = SlotMap::<u64>::new();
    assert_eq!(map.len(), 0);
    assert_eq!(map.find_free_slot(), None);
}

#[test]
fn insert_then_get_returns_the_item() {
    let mut map = SlotMap::new();
    let key = map.insert(41u64);
    assert_eq!(*map.get(key), 41);
    assert_eq!(map.len(), 1);
}

#[test]
fn get_mut_updates_in_place() {
    let mut map = SlotMap::new();
    let key = map.insert(1u64);
    *map.get_mut(key) = 9;
    assert_eq!(*map.get(key), 9);
}

#[test]
fn remove_returns_the_item_and_frees_the_slot() {
    let mut map = SlotMap::new();
    let key = map.insert(7u64);
    assert_eq!(map.remove(key), 7);
    assert_eq!(map.find_free_slot(), Some(0));
    assert_eq!(map.len(), 1);
}

#[test]
fn surviving_keys_stay_valid_after_removals() {
    // five inserts, then removal of two keys: the three others still resolve
    let mut map = SlotMap::new();
    let keys: Vec<_> = (0..5).map(|v| map.insert(v * 10u64)).collect();
    assert_eq!(map.len(), 5);

    assert_eq!(map.remove(keys[1]), 10);
    assert_eq!(map.remove(keys[3]), 30);

    assert_eq!(*map.get(keys[0]), 0);
    assert_eq!(*map.get(keys[2]), 20);
    assert_eq!(*map.get(keys[4]), 40);
}

#[test]
fn insert_reuses_the_lowest_freed_index_before_growing() {
    let mut map = SlotMap::new();
    let keys: Vec<_> = (0..5).map(|v| map.insert(v as u64)).collect();

    map.remove(keys[3]);
    map.remove(keys[1]);

    // the lowest freed index comes back first, and storage does not grow
    let first = map.insert(100u64);
    assert_eq!(first, keys[1]);
    assert_eq!(map.len(), 5);

    let second = map.insert(101u64);
    assert_eq!(second, keys[3]);
    assert_eq!(map.len(), 5);

    // with every slot full again the storage grows by one
    let third = map.insert(102u64);
    assert_eq!(map.len(), 6);
    assert_ne!(third, first);
    assert_ne!(third, second);
    assert_eq!(*map.get(third), 102);
}

#[test]
fn bitmap_tracks_slots_beyond_one_word() {
    // push past one 64-bit bitmap word, then free a slot in the second word
    let mut map = SlotMap::new();
    let keys: Vec<_> = (0..70).map(|v| map.insert(v as u64)).collect();
    assert_eq!(map.len(), 70);

    map.remove(keys[66]);
    assert_eq!(map.find_free_slot(), Some(66));

    let reused = map.insert(900u64);
    assert_eq!(reused, keys[66]);
    assert_eq!(map.len(), 70);
    assert_eq!(*map.get(reused), 900);

    map.remove(keys[2]);
    map.remove(keys[65]);
    assert_eq!(map.find_free_slot(), Some(2));
    let low = map.insert(901u64);
    assert_eq!(low, keys[2]);
    let high = map.insert(902u64);
    assert_eq!(high, keys[65]);
    assert_eq!(map.len(), 70);
}
