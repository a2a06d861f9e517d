use std::rc::Rc;

use appserver::helpers::tlru_cache::TLRUCache;

#[test]
fn insert_get_remove_no_eviction() {
    let mut cache: TLRUCache<String, String> = TLRUCache::new(None, None, None);

    // insert test1 and test2
    cache.insert(String::from("test1"), String::from("test1test1"));
    cache.insert(String::from("test2"), String::from("test2test2"));

    assert_eq!(
        cache.get(&String::from("test1")),
        Some(Rc::new(String::from("test1test1"))),
        "Test1 value not found after insertion"
    );
    assert_eq!(
        cache.get(&String::from("test2")),
        Some(Rc::new(String::from("test2test2"))),
        "Test2 value not found after insertion"
    );
    assert_eq!(
        cache.get(&String::from("test3")),
        None,
        "Test3 value found before insertion"
    );

    // insert test3
    cache.insert(String::from("test3"), String::from("test3test3"));

    assert_eq!(
        cache.get(&String::from("test3")),
        Some(Rc::new(String::from("test3test3"))),
        "Test3 value not found after insertion"
    );

    // remove test2
    cache.remove(&String::from("test2"));

    assert_eq!(
        cache.get(&String::from("test1")),
        Some(Rc::new(String::from("test1test1"))),
        "Test1 value not found after deletion of Test2"
    );
    assert_eq!(
        cache.get(&String::from("test2")),
        None,
        "Test2 value found after deletion"
    );
    assert_eq!(
        cache.get(&String::from("test3")),
        Some(Rc::new(String::from("test3test3"))),
        "Test3 value not found after deletion of Test2"
    );

    // remove test3
    cache.remove(&String::from("test3"));

    assert_eq!(
        cache.get(&String::from("test1")),
        Some(Rc::new(String::from("test1test1"))),
        "Test1 value not found after deletion of Test3"
    );
    assert_eq!(
        cache.get(&String::from("test2")),
        None,
        "Test2 value found after deletion"
    );
    assert_eq!(
        cache.get(&String::from("test3")),
        None,
        "Test3 value found after deletion"
    );

    // remove test1
    cache.remove(&String::from("test1"));

    assert_eq!(
        cache.get(&String::from("test1")),
        None,
        "Test1 value found after deletion"
    );
    assert_eq!(
        cache.get(&String::from("test2")),
        None,
        "Test2 value found after deletion"
    );
    assert_eq!(
        cache.get(&String::from("test3")),
        None,
        "Test3 value found after deletion"
    );
}

#[test]
fn insert_get_interspersed_max_size_eviction() {
    let mut cache: TLRUCache<String, String> = TLRUCache::new(Some(2), None, None);

    // insert test1
    cache.insert(String::from("test1"), String::from("test1test1"));

    assert_eq!(
        cache.get(&String::from("test1")),
        Some(Rc::new(String::from("test1test1"))),
        "Test1 value not found after insertion of Test1"
    );

    // insert test2
    cache.insert(String::from("test2"), String::from("test2test2"));

    assert_eq!(
        cache.get(&String::from("test1")),
        Some(Rc::new(String::from("test1test1"))),
        "Test1 value not found after insertion of Test2"
    );
    assert_eq!(
        cache.get(&String::from("test2")),
        Some(Rc::new(String::from("test2test2"))),
        "Test2 value not found after insertion of Test2"
    );

    // insert test3 (should remove least recently used: test1)
    cache.insert(String::from("test3"), String::from("test3test3"));

    assert_eq!(
        cache.get(&String::from("test3")),
        Some(Rc::new(String::from("test3test3"))),
        "Test3 value not found after insertion of Test3"
    );
    assert_eq!(
        cache.get(&String::from("test2")),
        Some(Rc::new(String::from("test2test2"))),
        "Test2 value not found after insertion of Test3"
    );
    assert_eq!(
        cache.get(&String::from("test1")),
        None,
        "Test1 found after insertion of Test3"
    );

    // insert test4 (should remove least recently used: test3, note the change in order of checking in previous test)
    cache.insert(String::from("test4"), String::from("test4test4"));

    assert_eq!(
        cache.get(&String::from("test1")),
        None,
        "Test1 found after insertion of Test4"
    );
    assert_eq!(
        cache.get(&String::from("test2")),
        Some(Rc::new(String::from("test2test2"))),
        "Test2 value not found after insertion of Test4"
    );
    assert_eq!(
        cache.get(&String::from("test3")),
        None,
        "Test3 found after insertion of Test4"
    );
    assert_eq!(
        cache.get(&String::from("test4")),
        Some(Rc::new(String::from("test4test4"))),
        "Test4 value not found after insertion of Test4"
    );
}

#[test]
fn eviction_follows_recency_with_integer_keys() {
    let mut cache: TLRUCache<u64, char> = TLRUCache::new(Some(2), None, None);
    cache.insert(1, 'A');
    cache.insert(2, 'B');
    cache.insert(3, 'C');
    // key 2 is asked for last, so it is the newest when key 4 comes
    assert_eq!(cache.get(&3), Some(Rc::new('C')));
    assert_eq!(cache.get(&2), Some(Rc::new('B')));
    assert_eq!(cache.get(&1), None);
    cache.insert(4, 'D');
    assert_eq!(cache.get(&3), None);
    assert_eq!(cache.get(&2), Some(Rc::new('B')));
    assert_eq!(cache.get(&4), Some(Rc::new('D')));
    assert_eq!(cache.len(), 2);
}

#[test]
fn size_never_exceeds_the_bound() {
    let mut cache: TLRUCache<u32, u32> = TLRUCache::new(Some(3), None, None);
    for round in 0..50u32 {
        cache.insert(round % 7, round);
        assert!(cache.len() <= 3);
        let _ = cache.get(&(round % 5));
        assert!(cache.len() <= 3);
        if round % 4 == 0 {
            cache.remove(&(round % 3));
        }
        assert!(cache.len() <= 3);
    }
}

#[test]
fn zero_bound_keeps_nothing() {
    let mut cache: TLRUCache<u8, u8> = TLRUCache::new(Some(0), None, None);
    cache.insert(1, 1);
    assert_eq!(cache.len(), 0);
    assert_eq!(cache.get(&1), None);
}

#[test]
fn insert_replaces_the_value_and_promotes() {
    let mut cache: TLRUCache<u8, &str> = TLRUCache::new(Some(2), None, None);
    cache.insert_at(1, "one", 0);
    cache.insert_at(2, "two", 1);
    cache.insert_at(1, "uno", 2);
    assert_eq!(cache.len(), 2);
    // key 2 is now the oldest and leaves first
    cache.insert_at(3, "three", 3);
    assert_eq!(cache.get_at(&2, 4), None);
    assert_eq!(cache.get_at(&1, 4), Some(Rc::new("uno")));
    assert_eq!(cache.get_at(&3, 4), Some(Rc::new("three")));
}

#[test]
fn removing_the_only_entry_empties_the_cache() {
    let mut cache: TLRUCache<u8, u8> = TLRUCache::new(None, None, None);
    cache.insert(9, 9);
    cache.remove(&9);
    assert_eq!(cache.len(), 0);
    cache.insert(8, 8);
    assert_eq!(cache.get(&8), Some(Rc::new(8)));
}

#[test]
fn removing_the_newest_entry_keeps_the_rest_in_order() {
    let mut cache: TLRUCache<u8, u8> = TLRUCache::new(Some(2), None, None);
    cache.insert(1, 1);
    cache.insert(2, 2);
    cache.remove(&2);
    cache.insert(3, 3);
    cache.insert(4, 4);
    // 1 was the oldest and left when 4 came
    assert_eq!(cache.get(&1), None);
    assert_eq!(cache.get(&3), Some(Rc::new(3)));
    assert_eq!(cache.get(&4), Some(Rc::new(4)));
}

#[test]
fn removing_a_missing_key_changes_nothing() {
    let mut cache: TLRUCache<u8, u8> = TLRUCache::new(None, None, None);
    cache.insert(1, 1);
    cache.remove(&2);
    assert_eq!(cache.len(), 1);
    assert_eq!(cache.get(&1), Some(Rc::new(1)));
}

#[test]
fn clear_drops_everything() {
    let mut cache: TLRUCache<u8, u8> = TLRUCache::new(None, None, None);
    cache.insert(1, 1);
    cache.insert(2, 2);
    cache.clear();
    assert_eq!(cache.len(), 0);
    assert_eq!(cache.get(&1), None);
    cache.insert(3, 3);
    assert_eq!(cache.get(&3), Some(Rc::new(3)));
}

#[test]
fn create_age_expires_entries() {
    let mut cache: TLRUCache<u8, u8> = TLRUCache::new(None, Some(100), None);
    cache.insert_at(1, 10, 1_000);
    // exactly at the bound the entry is still good
    assert_eq!(cache.get_at(&1, 1_100), Some(Rc::new(10)));
    // one past the bound it is expired and removed, although it was just used
    assert_eq!(cache.get_at(&1, 1_101), None);
    assert_eq!(cache.len(), 0);
}

#[test]
fn idle_age_restarts_on_use() {
    let mut cache: TLRUCache<u8, u8> = TLRUCache::new(None, None, Some(100));
    cache.insert_at(1, 10, 0);
    assert_eq!(cache.get_at(&1, 100), Some(Rc::new(10)));
    assert_eq!(cache.get_at(&1, 200), Some(Rc::new(10)));
    assert_eq!(cache.get_at(&1, 301), None);
}

#[test]
fn a_clock_that_runs_backwards_counts_as_no_age() {
    let mut cache: TLRUCache<u8, u8> = TLRUCache::new(None, Some(10), Some(10));
    cache.insert_at(1, 10, 1_000);
    assert_eq!(cache.get_at(&1, 5), Some(Rc::new(10)));
}

#[test]
fn partial_gc_stops_at_the_first_good_entry() {
    let mut cache: TLRUCache<u8, u8> = TLRUCache::new(None, Some(100), None);
    cache.insert_at(1, 1, 0);
    cache.insert_at(2, 2, 500);
    cache.insert_at(3, 3, 10);
    // at 150 the entries 1 and 3 are expired, 2 is good; 1 is the oldest
    cache.gc_at(false, 150);
    assert_eq!(cache.len(), 2);
    cache.gc_at(true, 150);
    assert_eq!(cache.len(), 1);
    assert_eq!(cache.get_at(&2, 150), Some(Rc::new(2)));
}

#[test]
fn gc_with_a_given_time_uses_it() {
    let mut cache: TLRUCache<u8, u8> = TLRUCache::new(None, Some(100), None);
    cache.insert_at(1, 1, 0);
    cache.gc(true, Some(100));
    assert_eq!(cache.len(), 1);
    cache.gc(true, Some(101));
    assert_eq!(cache.len(), 0);
}

#[test]
fn the_clock_of_the_cache_does_not_run_backwards() {
    let cache: TLRUCache<u8, u8> = TLRUCache::new(None, None, None);
    let first = cache.now();
    let second = cache.now();
    assert!(second >= first);
}

#[test]
fn shared_handles_name_the_stored_value() {
    let mut cache: TLRUCache<u8, String> = TLRUCache::new(None, None, None);
    cache.insert(1, String::from("value"));
    let first = cache.get(&1).unwrap();
    let second = cache.get(&1).unwrap();
    assert!(Rc::ptr_eq(&first, &second));
}

#[test]
fn any_sequence_of_operations_agrees_with_a_plain_list() {
    // the plain list holds the keys from oldest to newest
    let mut cache: TLRUCache<u32, u32> = TLRUCache::new(Some(4), None, None);
    let mut model: Vec<(u32, u32)> = Vec::new();
    let mut state: u32 = 12345;
    for round in 0..2000u32 {
        state = state.wrapping_mul(1664525).wrapping_add(1013904223);
        let key = (state >> 16) % 7;
        match (state >> 8) % 3 {
            0 => {
                cache.insert(key, round);
                model.retain(|entry| entry.0 != key);
                model.push((key, round));
                while model.len() > 4 {
                    model.remove(0);
                }
            }
            1 => {
                let found = cache.get(&key);
                let expected = model.iter().position(|entry| entry.0 == key).map(|at| {
                    let entry = model.remove(at);
                    model.push(entry);
                    entry.1
                });
                assert_eq!(found.map(|value| *value), expected);
            }
            _ => {
                cache.remove(&key);
                model.retain(|entry| entry.0 != key);
            }
        }
        assert_eq!(cache.len(), model.len());
    }
    // what is left comes out in the order of the list
    for (key, value) in model.clone() {
        assert_eq!(cache.get(&key), Some(Rc::new(value)));
    }
}
