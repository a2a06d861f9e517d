use std::sync::Arc;

use appserver::config::DatastoreConfig;
use appserver::datastore::ChangeId;
use appserver::database::DatastoreValueMeta;
use appserver::datastore::DataStore;
use appserver::datastore::Lookup;
use appserver::datastore::Value;
use appserver::datastore::WriteError;
use appserver::helpers::id_text::ParseIdError;

fn config(keep_history: bool, max_age: Option<u64>, max_entries: Option<u64>) -> DatastoreConfig {
    DatastoreConfig {
        database_schema: None,
        keep_history,
        history_max_age: max_age,
        history_max_entries: max_entries,
    }
}

fn path(segments: &[&str]) -> Vec<String> {
    segments.iter().map(|s| String::from(*s)).collect()
}

fn values(history: &Vec<Arc<Value<String>>>) -> Vec<Option<String>> {
    history.iter().map(|v| v.value.clone()).collect()
}

#[test]
fn basic_get_set() {
    let mut datastore: DataStore<String, u8> = DataStore::new("test", config(false, None, None));

    datastore.set(vec![], String::from("test1")).unwrap();
    assert_eq!(
        datastore.get_current(&vec![]).value,
        Some(String::from("test1"))
    );

    datastore.set(vec![], String::from("test2")).unwrap();
    assert_eq!(
        datastore.get_current(&vec![]).value,
        Some(String::from("test2"))
    );
}

#[test]
fn a_new_store_is_empty() {
    let datastore: DataStore<String, u8> = DataStore::new("test", config(true, None, None));
    let current = datastore.get_current(&path(&["a", "b"]));
    assert_eq!(current.value, None);
    assert_eq!(current.change_id, ChangeId::none());
    assert_eq!(current.path, path(&["a", "b"]));
    assert_eq!(current.timestamp, 0);
    assert_eq!(datastore.get_all(&vec![], None).len(), 0);
    assert_eq!(datastore.list(&vec![]).len(), 0);
    assert_eq!(datastore.subscriptions_to(&vec![]).len(), 0);
}

#[test]
fn set_returns_the_change_that_is_read_back() {
    let mut datastore: DataStore<String, u8> = DataStore::new("test", config(true, None, None));
    let change = datastore.set(path(&["a"]), String::from("v")).unwrap();
    assert_ne!(change.value.change_id, ChangeId::none());
    let current = datastore.get_current(&path(&["a"]));
    assert!(Arc::ptr_eq(&current, &change.value));
    assert_eq!(current.path, path(&["a"]));
}

#[test]
fn delete_leaves_no_value_but_a_history() {
    let mut datastore: DataStore<String, u8> = DataStore::new("test", config(true, None, None));
    datastore.set(path(&["a"]), String::from("v")).unwrap();
    let change = datastore.delete(path(&["a"])).unwrap();
    assert_eq!(change.value.value, None);
    let current = datastore.get_current(&path(&["a"]));
    assert_eq!(current.value, None);
    assert_eq!(current.change_id, change.value.change_id);
    assert_eq!(
        values(&datastore.get_all(&path(&["a"]), None)),
        vec![Some(String::from("v")), None]
    );
}

#[test]
fn writes_touch_their_own_path_only() {
    let mut datastore: DataStore<String, u8> = DataStore::new("test", config(true, None, None));
    datastore.set(path(&["a", "b"]), String::from("deep")).unwrap();
    assert_eq!(datastore.get_current(&path(&["a"])).value, None);
    assert_eq!(datastore.get_current(&vec![]).value, None);
    assert_eq!(datastore.get_current(&path(&["a", "b", "c"])).value, None);
    assert_eq!(
        datastore.get_current(&path(&["a", "b"])).value,
        Some(String::from("deep"))
    );
}

#[test]
fn history_is_in_the_order_of_the_changes() {
    let mut datastore: DataStore<String, u8> = DataStore::new("test", config(true, None, None));
    let p = path(&["k"]);
    // the second write comes with an earlier clock reading
    datastore.set_value(p.clone(), Some(String::from("one")), ChangeId::from_u128(1), 100).unwrap();
    datastore.set_value(p.clone(), Some(String::from("two")), ChangeId::from_u128(2), 50).unwrap();
    datastore.set_value(p.clone(), None, ChangeId::from_u128(3), 200).unwrap();
    let all = datastore.get_all(&p, None);
    assert_eq!(
        all.iter().map(|v| v.change_id.as_u128()).collect::<Vec<u128>>(),
        vec![1, 2, 3]
    );
    assert_eq!(
        all.iter().map(|v| v.timestamp).collect::<Vec<i64>>(),
        vec![100, 100, 200]
    );
    for pair in all.windows(2) {
        assert!(pair[0].timestamp <= pair[1].timestamp);
    }
}

#[test]
fn a_cursor_yields_the_later_changes() {
    let mut datastore: DataStore<String, u8> = DataStore::new("test", config(true, None, None));
    let p = path(&["k"]);
    for n in 1..=4u128 {
        datastore.set_value(p.clone(), Some(format!("v{}", n)), ChangeId::from_u128(n), n as i64).unwrap();
    }
    let later = datastore.get_all(&p, Some(ChangeId::from_u128(2)));
    assert_eq!(
        values(&later),
        vec![Some(String::from("v3")), Some(String::from("v4"))]
    );
    assert_eq!(datastore.get_all(&p, Some(ChangeId::from_u128(4))).len(), 0);
    // a cursor that the history does not hold yields all of it
    assert_eq!(datastore.get_all(&p, Some(ChangeId::from_u128(9))).len(), 4);
}

#[test]
fn without_history_only_the_current_value_stays() {
    let mut datastore: DataStore<String, u8> = DataStore::new("test", config(false, None, None));
    let p = path(&["k"]);
    datastore.set(p.clone(), String::from("one")).unwrap();
    datastore.set(p.clone(), String::from("two")).unwrap();
    datastore.delete(p.clone()).unwrap();
    assert_eq!(values(&datastore.get_all(&p, None)), vec![None]);
}

#[test]
fn history_is_bounded_in_number() {
    let mut datastore: DataStore<String, u8> = DataStore::new("test", config(true, None, Some(2)));
    let p = path(&["k"]);
    for n in 1..=5u128 {
        datastore.set_value(p.clone(), Some(format!("v{}", n)), ChangeId::from_u128(n), 0).unwrap();
    }
    // the current value and two previous ones
    assert_eq!(
        values(&datastore.get_all(&p, None)),
        vec![
            Some(String::from("v3")),
            Some(String::from("v4")),
            Some(String::from("v5"))
        ]
    );
}

#[test]
fn zero_previous_entries_keeps_the_current_value() {
    let mut datastore: DataStore<String, u8> = DataStore::new("test", config(true, None, Some(0)));
    let p = path(&["k"]);
    datastore.set(p.clone(), String::from("one")).unwrap();
    datastore.set(p.clone(), String::from("two")).unwrap();
    assert_eq!(
        values(&datastore.get_all(&p, None)),
        vec![Some(String::from("two"))]
    );
}

#[test]
fn history_is_bounded_in_age() {
    let mut datastore: DataStore<String, u8> = DataStore::new("test", config(true, Some(10), None));
    let p = path(&["k"]);
    datastore.set_value(p.clone(), Some(String::from("a")), ChangeId::from_u128(1), 0).unwrap();
    datastore.set_value(p.clone(), Some(String::from("b")), ChangeId::from_u128(2), 5_000_000).unwrap();
    // ten seconds after the first write it is still kept
    datastore.set_value(p.clone(), Some(String::from("c")), ChangeId::from_u128(3), 10_000_000).unwrap();
    assert_eq!(datastore.get_all(&p, None).len(), 3);
    // one microsecond past ten seconds it leaves
    datastore.set_value(p.clone(), Some(String::from("d")), ChangeId::from_u128(4), 10_000_001).unwrap();
    assert_eq!(
        values(&datastore.get_all(&p, None)),
        vec![
            Some(String::from("b")),
            Some(String::from("c")),
            Some(String::from("d"))
        ]
    );
    // the current value stays however old it is
    datastore.set_value(p.clone(), Some(String::from("e")), ChangeId::from_u128(5), 900_000_000).unwrap();
    assert_eq!(
        values(&datastore.get_all(&p, None)),
        vec![Some(String::from("e"))]
    );
}

#[test]
fn list_shows_children_with_live_values_below() {
    let mut datastore: DataStore<String, u8> = DataStore::new("test", config(true, None, None));
    datastore.set(path(&["a", "x"]), String::from("1")).unwrap();
    datastore.set(path(&["b"]), String::from("2")).unwrap();
    datastore.set(path(&["c", "y", "z"]), String::from("3")).unwrap();
    datastore.set(path(&["d"]), String::from("4")).unwrap();
    datastore.delete(path(&["d"])).unwrap();
    let mut top = datastore.list(&vec![]);
    top.sort();
    assert_eq!(top, path(&["a", "b", "c"]));
    assert_eq!(datastore.list(&path(&["a"])), path(&["x"]));
    assert_eq!(datastore.list(&path(&["c"])), path(&["y"]));
    assert_eq!(datastore.list(&path(&["b"])).len(), 0);
    assert_eq!(datastore.list(&path(&["nowhere"])).len(), 0);
    // a deletion below hides the branch
    datastore.delete(path(&["c", "y", "z"])).unwrap();
    let mut top = datastore.list(&vec![]);
    top.sort();
    assert_eq!(top, path(&["a", "b"]));
}

#[test]
fn subscriptions_are_told_of_writes_to_their_own_path() {
    let mut datastore: DataStore<String, &str> = DataStore::new("test", config(true, None, None));
    assert_eq!(datastore.subscribe_with(path(&["a"]), "first", 1), Ok(1));
    assert_eq!(datastore.subscribe_with(path(&["a"]), "second", 2), Ok(2));
    assert_eq!(datastore.subscribe_with(path(&["a", "b"]), "below", 3), Ok(3));
    assert_eq!(datastore.subscribe_with(vec![], "root", 4), Ok(4));

    let change = datastore.set(path(&["a"]), String::from("v")).unwrap();
    assert_eq!(change.subscriptions, vec![1, 2]);
    let change = datastore.set(path(&["a", "b"]), String::from("v")).unwrap();
    assert_eq!(change.subscriptions, vec![3]);
    let change = datastore.delete(vec![]).unwrap();
    assert_eq!(change.subscriptions, vec![4]);
    let change = datastore.set(path(&["other"]), String::from("v")).unwrap();
    assert_eq!(change.subscriptions.len(), 0);

    assert_eq!(datastore.channel(1), Some(&"first"));
    assert_eq!(datastore.channel(9), None);
    assert_eq!(datastore.subscriptions_to(&path(&["a"])), vec![1, 2]);
}

#[test]
fn an_identifier_in_use_is_refused() {
    let mut datastore: DataStore<String, &str> = DataStore::new("test", config(true, None, None));
    assert_eq!(datastore.subscribe_with(path(&["a"]), "first", 1), Ok(1));
    assert_eq!(datastore.subscribe_with(path(&["b"]), "again", 1), Err("again"));
    assert_eq!(datastore.subscriptions_to(&path(&["b"])).len(), 0);
    assert_eq!(datastore.channel(1), Some(&"first"));
}

#[test]
fn unsubscribe_removes_from_both_indices() {
    let mut datastore: DataStore<String, &str> = DataStore::new("test", config(true, None, None));
    datastore.subscribe_with(path(&["a"]), "one", 1).unwrap();
    datastore.subscribe_with(path(&["a"]), "two", 2).unwrap();
    datastore.subscribe_with(path(&["a"]), "three", 3).unwrap();
    assert_eq!(datastore.unsubscribe(2), Some("two"));
    assert_eq!(datastore.unsubscribe(2), None);
    assert_eq!(datastore.channel(2), None);
    assert_eq!(datastore.subscriptions_to(&path(&["a"])), vec![1, 3]);
    let change = datastore.set(path(&["a"]), String::from("v")).unwrap();
    assert_eq!(change.subscriptions, vec![1, 3]);
}

#[test]
fn fresh_subscriptions_get_distinct_identifiers() {
    let mut datastore: DataStore<String, u8> = DataStore::new("test", config(true, None, None));
    let a = datastore.subscribe(vec![], 1).unwrap();
    let b = datastore.subscribe(vec![], 2).unwrap();
    assert_ne!(a, b);
    assert_ne!(a, 0);
    assert_eq!(datastore.subscriptions_to(&vec![]), vec![a, b]);
}

#[test]
fn the_cache_answers_by_change() {
    let mut datastore: DataStore<String, u8> = DataStore::new("test", config(false, None, None));
    let change = datastore.set(path(&["a"]), String::from("v")).unwrap();
    let found = datastore.cached(change.value.change_id).unwrap();
    assert!(Arc::ptr_eq(&found, &change.value));
    assert!(datastore.cached(ChangeId::from_u128(77)).is_none());

    let loaded = Arc::new(Value {
        value: Some(String::from("loaded")),
        path: path(&["b"]),
        timestamp: 5,
        change_id: ChangeId::from_u128(77),
    });
    datastore.remember(loaded.clone());
    let found = datastore.cached(ChangeId::from_u128(77)).unwrap();
    assert!(Arc::ptr_eq(&found, &loaded));
    // what is only cached is no part of a history
    assert_eq!(datastore.get_current(&path(&["b"])).value, None);
}

#[test]
fn fresh_change_identifiers_are_version_4_and_distinct() {
    let ids: Vec<ChangeId> = (0..64).map(|_| ChangeId::new()).collect();
    for (i, id) in ids.iter().enumerate() {
        let bits = id.as_u128();
        assert_eq!((bits >> 76) & 0xf, 4);
        assert_eq!((bits >> 62) & 0x3, 2);
        assert_ne!(*id, ChangeId::none());
        for other in &ids[i + 1..] {
            assert_ne!(id, other);
        }
    }
}

#[test]
fn change_identifiers_are_written_and_read_as_hex() {
    let id = ChangeId::from_u128(0x1f);
    assert_eq!(id.to_string(), "0000000000000000000000000000001f");
    assert_eq!(ChangeId::parse("1F"), Ok(id));
    assert_eq!(ChangeId::parse(&id.to_string()), Ok(id));
    assert_eq!(ChangeId::parse("x"), Err(ParseIdError::InvalidDigit));
    assert_eq!(ChangeId::parse(""), Err(ParseIdError::Empty));
}

#[test]
fn a_change_identifier_is_used_once() {
    let mut datastore: DataStore<String, u8> = DataStore::new("test", config(true, None, Some(0)));
    let id = ChangeId::from_u128(7);
    assert!(!datastore.holds_change(id));
    datastore
        .set_value(path(&["a"]), Some(String::from("v")), id, 1)
        .unwrap();
    assert!(datastore.holds_change(id));
    // neither at the same path nor at another
    assert_eq!(
        datastore
            .set_value(path(&["a"]), Some(String::from("w")), id, 2)
            .err(),
        Some(WriteError::DuplicateChange)
    );
    assert_eq!(
        datastore.set_value(path(&["b"]), None, id, 2).err(),
        Some(WriteError::DuplicateChange)
    );
    assert_eq!(
        datastore.get_current(&path(&["a"])).value,
        Some(String::from("v"))
    );
    assert_eq!(datastore.get_all(&path(&["b"]), None).len(), 0);
    // an entry that left the history has given its identifier back
    datastore
        .set_value(path(&["a"]), Some(String::from("x")), ChangeId::from_u128(8), 3)
        .unwrap();
    assert!(!datastore.holds_change(id));
    datastore
        .set_value(path(&["b"]), Some(String::from("y")), id, 4)
        .unwrap();
    assert!(datastore.holds_change(id));
}

#[test]
fn collecting_the_cache_leaves_the_histories() {
    let mut datastore: DataStore<String, u8> = DataStore::new("named", config(true, None, None));
    assert_eq!(datastore.name(), "named");
    let change = datastore.set(path(&["a"]), String::from("v")).unwrap();
    datastore.collect_cache();
    assert_eq!(
        datastore.get_current(&path(&["a"])).value,
        Some(String::from("v"))
    );
    // the value was used a moment ago and stays cached
    assert!(datastore.cached(change.value.change_id).is_some());
}

#[test]
fn a_store_without_subscriptions_refuses_none() {
    for _ in 0..32 {
        let mut datastore: DataStore<String, u8> = DataStore::new("test", config(true, None, None));
        let id = datastore.subscribe(path(&["a"]), 1).unwrap();
        assert_ne!(id, 0);
        assert_eq!(datastore.subscriptions_to(&path(&["a"])), vec![id]);
    }
}

#[test]
fn the_value_of_a_key_without_history() {
    let value: Value<String> = Value::absent(path(&["a", "b"]));
    assert_eq!(value.value, None);
    assert_eq!(value.path, path(&["a", "b"]));
    assert_eq!(value.timestamp, 0);
    assert_eq!(value.change_id, ChangeId::none());
}

#[test]
fn the_value_of_a_row_is_fetched_once() {
    let mut datastore: DataStore<String, u8> = DataStore::new("test", config(true, None, None));
    let meta = DatastoreValueMeta {
        id: 4,
        change_id: 77,
        timestamp: 123,
    };
    // the cache does not hold the row yet: its payload is to be fetched
    match datastore.look_up(&meta) {
        Lookup::Fetch(change_id) => assert_eq!(change_id, ChangeId::from_u128(77)),
        Lookup::Cached(_) => panic!("nothing was cached"),
    }
    let made = datastore.fetched(path(&["a"]), &meta, Some(String::from("payload")));
    assert_eq!(made.value, Some(String::from("payload")));
    assert_eq!(made.path, path(&["a"]));
    assert_eq!(made.timestamp, 123);
    assert_eq!(made.change_id, ChangeId::from_u128(77));
    // now the cache answers
    match datastore.look_up(&meta) {
        Lookup::Cached(value) => assert!(Arc::ptr_eq(&value, &made)),
        Lookup::Fetch(_) => panic!("the value was cached"),
    }
    // a deleted row has no payload
    let gone = DatastoreValueMeta {
        id: 5,
        change_id: 78,
        timestamp: 124,
    };
    let made = Value::<String>::of_row(path(&["a"]), &gone, None);
    assert_eq!(made.value, None);
    assert_eq!(made.change_id.as_u128(), 78);
    // what is cached is no part of a history
    assert_eq!(datastore.get_all(&path(&["a"]), None).len(), 0);
}

#[test]
fn reading_behind_a_cursor_yields_the_later_writes_in_order() {
    let mut datastore: DataStore<String, u8> = DataStore::new("test", config(true, None, None));
    let p = path(&["k"]);
    let mut ids = Vec::new();
    for n in 0..6 {
        // writes to another key in between do not show
        datastore.set(path(&["other"]), format!("o{}", n)).unwrap();
        ids.push(datastore.set(p.clone(), format!("v{}", n)).unwrap().value.change_id);
    }
    let all = datastore.get_all(&p, None);
    assert_eq!(
        all.iter().map(|v| v.change_id).collect::<Vec<ChangeId>>(),
        ids
    );
    for (at, id) in ids.iter().enumerate() {
        let later = datastore.get_all(&p, Some(*id));
        assert_eq!(
            later.iter().map(|v| v.change_id).collect::<Vec<ChangeId>>(),
            ids[at + 1..].to_vec()
        );
    }
}
