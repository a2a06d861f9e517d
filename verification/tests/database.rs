use appserver::config::DatabaseSchemaConfig;
use appserver::config::DatastoreConfig;
use appserver::database::get_table_prefix;
use appserver::database::sanitize_table_name;
use appserver::database::DatastoreDatabaseConfig;
use appserver::database::DatastoreValueMeta;
use appserver::database::KeyWalk;
use appserver::database::KeyWalkStep;
use appserver::helpers::cursor::cursor_start;
use appserver::helpers::retention::count_purged;
use appserver::helpers::retention::stale;
use appserver::helpers::retention::stamp_after;

#[test]
fn table_names_keep_letters_digits_and_underscores() {
    assert_eq!(sanitize_table_name("Test Store-1_a"), "TestStore1_a");
    assert_eq!(sanitize_table_name("\"; DROP TABLE x; --"), "DROPTABLEx");
    assert_eq!(sanitize_table_name(""), "");
    assert_eq!(sanitize_table_name("é ü"), "");
    assert_eq!(
        sanitize_table_name("0123456789ABCDEFGHIJKLMNOPQRSTUVWXYZabcdefghijklmnopqrstuvwxyz_"),
        "0123456789ABCDEFGHIJKLMNOPQRSTUVWXYZabcdefghijklmnopqrstuvwxyz_"
    );
}

#[test]
fn table_prefixes_join_the_names_with_the_separator() {
    assert_eq!(get_table_prefix(None, None), "");
    assert_eq!(get_table_prefix(None, Some("TestStore")), "TestStore__");
    assert_eq!(get_table_prefix(Some("ns"), None), "ns__");
    assert_eq!(get_table_prefix(Some("n s"), Some("my.store")), "ns__mystore__");
    assert_eq!(get_table_prefix(Some(""), Some("\"")), "____");
}

#[test]
fn a_store_tells_the_database_its_rules() {
    let schema = DatabaseSchemaConfig {
        connection: String::from("memory"),
        table_prefix: Some(String::from("app 1")),
    };
    let store = DatastoreConfig {
        database_schema: Some(String::from("main")),
        keep_history: true,
        history_max_age: Some(3600),
        history_max_entries: Some(1000),
    };
    let config = DatastoreDatabaseConfig::new("test store", &schema, &store);
    assert_eq!(config.namespace.as_deref(), Some("app 1"));
    assert_eq!(config.store_name, "test store");
    assert!(config.keep_history);
    assert_eq!(config.max_age, Some(3600));
    assert_eq!(config.max_entries, Some(1000));
    assert_eq!(config.table_prefix(), "app1__teststore__");

    let schema = DatabaseSchemaConfig {
        connection: String::new(),
        table_prefix: None,
    };
    let config = DatastoreDatabaseConfig::new("s", &schema, &store);
    assert_eq!(config.namespace, None);
    assert_eq!(config.table_prefix(), "s__");
}

#[test]
fn a_walk_along_the_empty_path_ends_at_the_root() {
    let (walk, step) = KeyWalk::begin(0, false);
    assert_eq!(step, KeyWalkStep::Found { node_id: None });
    assert_eq!(walk.depth, 0);
    let (_, step) = KeyWalk::begin(0, true);
    assert_eq!(step, KeyWalkStep::Found { node_id: None });
}

#[test]
fn a_walk_descends_through_the_nodes_it_finds() {
    let (mut walk, step) = KeyWalk::begin(2, false);
    assert_eq!(
        step,
        KeyWalkStep::Select {
            parent_id: None,
            depth: 0
        }
    );
    assert_eq!(
        walk.selected(Some(11)),
        KeyWalkStep::Select {
            parent_id: Some(11),
            depth: 1
        }
    );
    assert_eq!(
        walk.selected(Some(12)),
        KeyWalkStep::Found { node_id: Some(12) }
    );
}

#[test]
fn a_walk_that_does_not_create_ends_at_the_first_missing_node() {
    let (mut walk, _) = KeyWalk::begin(3, false);
    walk.selected(Some(5));
    assert_eq!(walk.selected(None), KeyWalkStep::Missing);
}

#[test]
fn a_walk_that_creates_asks_for_the_missing_nodes() {
    let (mut walk, _) = KeyWalk::begin(2, true);
    assert_eq!(
        walk.selected(None),
        KeyWalkStep::Insert {
            parent_id: None,
            depth: 0
        }
    );
    assert_eq!(
        walk.inserted(21),
        KeyWalkStep::Select {
            parent_id: Some(21),
            depth: 1
        }
    );
    assert_eq!(
        walk.selected(None),
        KeyWalkStep::Insert {
            parent_id: Some(21),
            depth: 1
        }
    );
    assert_eq!(walk.inserted(22), KeyWalkStep::Found { node_id: Some(22) });
}

#[test]
fn age_is_counted_in_whole_seconds() {
    assert!(!stale(0, None, i64::MAX));
    assert!(!stale(0, Some(1), 1_000_000));
    assert!(stale(0, Some(1), 1_000_001));
    assert!(stale(0, Some(0), 1));
    assert!(!stale(5, Some(0), 5));
    // a clock that runs backwards makes nothing stale
    assert!(!stale(10, Some(0), 3));
    // the extremes do not overflow
    assert!(stale(i64::MIN, Some(0), i64::MAX));
    assert!(!stale(i64::MIN, Some(u64::MAX), i64::MAX));
}

fn metas(times: &[i64]) -> Vec<DatastoreValueMeta> {
    times
        .iter()
        .enumerate()
        .map(|(i, t)| DatastoreValueMeta {
            id: i as u64,
            change_id: i as u128 + 1,
            timestamp: *t,
        })
        .collect()
}

#[test]
fn rows_to_purge_are_counted_from_the_oldest() {
    let second = 1_000_000;
    // nothing to purge in an empty history, whatever the rules
    assert_eq!(count_purged(&metas(&[]), false, Some(0), Some(0), 0), 0);
    // without history all previous rows go
    assert_eq!(count_purged(&metas(&[1, 2, 3]), false, None, None, 3), 2);
    assert_eq!(count_purged(&metas(&[1]), false, None, None, 3), 0);
    // with history and no bounds nothing goes
    assert_eq!(count_purged(&metas(&[1, 2, 3]), true, None, None, 3), 0);
    // the count bound is on previous rows
    assert_eq!(count_purged(&metas(&[1, 2, 3, 4]), true, None, Some(2), 4), 1);
    assert_eq!(count_purged(&metas(&[1, 2, 3, 4]), true, None, Some(3), 4), 0);
    assert_eq!(count_purged(&metas(&[1, 2, 3, 4]), true, None, Some(0), 4), 3);
    // the age bound takes the old rows in front, never the current one
    let times = [0, second, 2 * second, 3 * second];
    assert_eq!(
        count_purged(&metas(&times), true, Some(1), None, 3 * second),
        2
    );
    assert_eq!(
        count_purged(&metas(&times), true, Some(1), None, 100 * second),
        3
    );
    // the larger of the two bounds decides
    assert_eq!(
        count_purged(&metas(&times), true, Some(1), Some(2), 3 * second),
        2
    );
    assert_eq!(
        count_purged(&metas(&times), true, Some(10), Some(1), 3 * second),
        2
    );
}

#[test]
fn a_cursor_names_the_row_behind_which_reading_starts() {
    let rows = metas(&[10, 20, 30]);
    // the changes are numbered 1, 2, 3
    assert_eq!(cursor_start(&rows, None), 0);
    assert_eq!(cursor_start(&rows, Some(1)), 1);
    assert_eq!(cursor_start(&rows, Some(2)), 2);
    assert_eq!(cursor_start(&rows, Some(3)), 3);
    // a change that the history does not hold yields all of it
    assert_eq!(cursor_start(&rows, Some(9)), 0);
    assert_eq!(cursor_start(&metas(&[]), Some(1)), 0);
}

#[test]
fn an_entry_is_stamped_no_earlier_than_the_entry_before_it() {
    assert_eq!(stamp_after(None, 5), 5);
    assert_eq!(stamp_after(None, -5), -5);
    assert_eq!(stamp_after(Some(3), 5), 5);
    assert_eq!(stamp_after(Some(5), 5), 5);
    assert_eq!(stamp_after(Some(7), 5), 7);
    assert_eq!(stamp_after(Some(i64::MAX), i64::MIN), i64::MAX);
    assert_eq!(stamp_after(Some(i64::MIN), i64::MIN), i64::MIN);
}
