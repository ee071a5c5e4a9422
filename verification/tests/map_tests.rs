use syncmap::map::ReadOnly;
use syncmap::map::SyncMap;

#[test]
fn remove_and_insert() {
    let mut map = SyncMap::<usize>::new();
    let guard = map.guard();
    map.insert(1, 1, &guard);
    assert_eq!(map.remove(&1, &guard), Some(&1));
    assert_eq!(map.remove(&1, &guard), None);
}

#[test]
fn insert_then_get_all() {
    let mut map = SyncMap::<u64>::new();
    let guard = map.guard();
    for i in 0..32u64 {
        map.insert(i, i + 7, &guard);
    }
    for i in 0..32u64 {
        assert_eq!(map.get(&i, &guard), Some(&(i + 7)));
    }
}

#[test]
fn clear_then_get() {
    let mut map = SyncMap::new();
    let guard = map.guard();
    map.insert(1, "a", &guard);
    map.clear(&guard);
    assert_eq!(map.get(&1, &guard), None);
    assert_eq!(map.len(), 0);
}

#[test]
fn overwrite_passes() {
    let mut map = SyncMap::<u64>::new();
    let guard = map.guard();
    for pass in 0..2u64 {
        for i in 0..200u64 {
            map.insert(i, pass, &guard);
        }
    }
    for i in 0..200u64 {
        let v = map.get(&i, &guard);
        assert!(v == Some(&0) || v == Some(&1));
    }
}

#[test]
fn last_write_wins() {
    let mut map = SyncMap::<&str>::new();
    let guard = map.guard();
    map.insert(4, "first", &guard);
    map.insert(4, "second", &guard);
    assert_eq!(map.get(&4, &guard), Some(&"second"));
}

#[test]
fn remove_all_counts() {
    let mut map = SyncMap::<u64>::new();
    let guard = map.guard();
    for i in 0..64u64 {
        map.insert(i, i, &guard);
    }
    let mut hits = 0u64;
    for _pass in 0..2 {
        for i in 0..64u64 {
            if map.remove(&i, &guard).is_some() {
                hits += 1;
            }
        }
    }
    assert_eq!(hits, 64);
    for i in 0..64u64 {
        assert_eq!(map.get(&i, &guard), None);
    }
}

#[test]
fn promotion_preserves_values() {
    let mut map = SyncMap::<u64>::new();
    let guard = map.guard();
    for i in 0..8u64 {
        map.insert(i, i * 10, &guard);
    }
    // Misses on an absent key drive the miss counter up to the
    // overlay's size, promoting the overlay into the snapshot.
    for _ in 0..20 {
        assert_eq!(map.get(&999, &guard), None);
    }
    for i in 0..8u64 {
        assert_eq!(map.get(&i, &guard), Some(&(i * 10)));
    }
    // A removal leaves a tombstone in the snapshot; the next novel
    // insert rebuilds the overlay and expunges the tombstone; a later
    // insert of that key goes through the unexpunge slow path.
    assert_eq!(map.remove(&3, &guard), Some(&30));
    map.insert(100, 1000, &guard);
    map.insert(3, 33, &guard);
    assert_eq!(map.get(&3, &guard), Some(&33));
    assert_eq!(map.get(&100, &guard), Some(&1000));
    assert_eq!(map.get(&999, &guard), None);
}

#[test]
fn repeated_get_is_stable() {
    let mut map = SyncMap::<u64>::new();
    let guard = map.guard();
    map.insert(5, 50, &guard);
    let a = map.get(&5, &guard).copied();
    let b = map.get(&5, &guard).copied();
    assert_eq!(a, Some(50));
    assert_eq!(b, Some(50));
    let miss_a = map.get(&6, &guard).copied();
    let miss_b = map.get(&6, &guard).copied();
    assert_eq!(miss_a, None);
    assert_eq!(miss_b, None);
}

#[test]
fn detached_values_are_retained() {
    let probe = std::rc::Rc::new(7u64);
    let mut map = SyncMap::<std::rc::Rc<u64>>::new();
    let guard = map.guard();
    map.insert(1, probe.clone(), &guard);
    assert_eq!(std::rc::Rc::strong_count(&probe), 2);
    let removed = map.remove(&1, &guard);
    assert!(removed.is_some());
    // The detached value is retained by the map, not dropped.
    assert_eq!(std::rc::Rc::strong_count(&probe), 2);
    // A displaced value is retained as well.
    map.insert(2, probe.clone(), &guard);
    map.insert(2, probe.clone(), &guard);
    assert_eq!(std::rc::Rc::strong_count(&probe), 4);
    // Only dropping the map itself releases them.
    drop(map);
    assert_eq!(std::rc::Rc::strong_count(&probe), 1);
}

#[test]
fn len_counts_overlay() {
    let mut map = SyncMap::new();
    let guard = map.guard();
    map.insert(1, "a", &guard);
    map.insert(2, "b", &guard);
    assert_eq!(map.len(), 2);
}

#[test]
fn get_on_fresh_map_misses() {
    let mut map = SyncMap::<u64>::new();
    let guard = map.guard();
    assert_eq!(map.get(&1, &guard), None);
    map.insert(1, 2, &guard);
    assert_eq!(map.get(&1, &guard), Some(&2));
    assert_eq!(map.get(&2, &guard), None);
}

#[test]
fn with_hasher_starts_empty() {
    let mut map: SyncMap<u64> = SyncMap::with_hasher(0u8);
    let guard = map.guard();
    assert_eq!(map.get(&1, &guard), None);
    map.insert(1, 2, &guard);
    assert_eq!(map.get(&1, &guard), Some(&2));
}

#[test]
fn default_map_is_empty() {
    let mut map: SyncMap<u64> = Default::default();
    let guard = map.guard();
    assert_eq!(map.get(&0, &guard), None);
    assert_eq!(map.len(), 0);
}

#[test]
fn fresh_snapshot_is_unamended() {
    let snapshot = ReadOnly::new();
    assert!(!snapshot.amended);
}
