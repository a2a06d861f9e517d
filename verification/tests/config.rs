use appserver::config::default_data_stores;
use appserver::config::default_database;
use appserver::config::default_readonly_permissions;
use appserver::config::default_routes;
use appserver::config::default_server;
use appserver::config::Config;
use appserver::config::DataStoreConfig;
use appserver::config::DatabaseConfig;
use appserver::config::DatabaseConnectionConfig;
use appserver::config::DatabaseSchemaConfig;
use appserver::config::RouteConfig;
use appserver::config::RoutePermissionState;
use appserver::config::RoutePermissionValue;
use appserver::helpers::name_map::NameMap;

fn default_config() -> Config {
    Config {
        server: default_server(),
        databases: default_database(),
        data_stores: default_data_stores(),
        authentication: None,
        routes: default_routes(),
    }
}

#[test]
fn the_default_server_listens_on_all_hosts() {
    let server = default_server();
    assert_eq!(server.host, "0.0.0.0");
    assert_eq!(server.port, 8080);
}

#[test]
fn the_default_databases_and_stores_are_empty() {
    let databases = default_database();
    assert_eq!(databases.connections.len(), 0);
    assert_eq!(databases.schemas.len(), 0);
    assert_eq!(default_data_stores().len(), 0);
}

#[test]
fn the_default_route_serves_files_read_only() {
    let routes = default_routes();
    assert_eq!(routes.len(), 1);
    assert_eq!(routes.name_at(0), "/");
    match routes.get(&String::from("/")) {
        Some(RouteConfig::File {
            permissions,
            server_file_path,
            index_file,
        }) => {
            assert!(matches!(permissions.read, RoutePermissionValue::Global(true)));
            assert!(matches!(
                permissions.write,
                RoutePermissionValue::Global(false)
            ));
            assert_eq!(server_file_path, "./client/");
            assert_eq!(index_file.as_deref(), Some("index.html"));
        }
        _ => panic!("the default route is a file route"),
    }
    let permissions = default_readonly_permissions();
    assert!(matches!(permissions.read, RoutePermissionValue::Global(true)));
    assert!(matches!(
        permissions.write,
        RoutePermissionValue::Global(false)
    ));
}

#[test]
fn an_empty_or_missing_file_reads_as_an_empty_object() {
    assert_eq!(Config::text_or_default(None), "{}");
    assert_eq!(Config::text_or_default(Some(String::new())), "{}");
    assert_eq!(
        Config::text_or_default(Some(String::from("{\"a\":1}"))),
        "{\"a\":1}"
    );
    assert_eq!(Config::text_or_default(Some(String::from(" "))), " ");
}

#[test]
fn the_command_line_overrules_the_file() {
    let config = default_config().with_overrides(Some(9000), Some(String::from("127.0.0.1")));
    assert_eq!(config.server.port, 9000);
    assert_eq!(config.server.host, "127.0.0.1");
    assert_eq!(config.routes.len(), 1);

    let config = default_config().with_overrides(None, None);
    assert_eq!(config.server.port, 8080);
    assert_eq!(config.server.host, "0.0.0.0");

    let config = default_config().with_overrides(Some(1), None);
    assert_eq!(config.server.port, 1);
    assert_eq!(config.server.host, "0.0.0.0");
}

#[test]
fn history_is_kept_only_where_asked_for() {
    let given = DataStoreConfig {
        database_schema: Some(String::from("main")),
        keep_history: None,
        history_max_age: Some(5),
        history_max_entries: Some(7),
    };
    let resolved = given.resolve();
    assert_eq!(resolved.database_schema.as_deref(), Some("main"));
    assert!(!resolved.keep_history);
    assert_eq!(resolved.history_max_age, Some(5));
    assert_eq!(resolved.history_max_entries, Some(7));
    let given = DataStoreConfig {
        keep_history: Some(true),
        ..given
    };
    assert!(given.resolve().keep_history);
    let given = DataStoreConfig {
        keep_history: Some(false),
        ..given
    };
    assert!(!given.resolve().keep_history);
}

fn databases(connections: &[&str], schemas: &[(&str, &str)]) -> DatabaseConfig {
    let mut config = default_database();
    for name in connections {
        config.connections.insert(
            String::from(*name),
            DatabaseConnectionConfig::SQLite3 {
                database: String::from(":memory:"),
            },
        );
    }
    for (name, connection) in schemas {
        config.schemas.insert(
            String::from(*name),
            DatabaseSchemaConfig {
                connection: String::from(*connection),
                table_prefix: None,
            },
        );
    }
    config
}

#[test]
fn schemas_must_name_defined_connections() {
    assert_eq!(databases(&[], &[]).first_unresolved_schema(), None);
    assert_eq!(
        databases(&["memory"], &[("a", "memory"), ("b", "memory")]).first_unresolved_schema(),
        None
    );
    assert_eq!(
        databases(&["memory"], &[("a", "memory"), ("b", "disk"), ("c", "tape")])
            .first_unresolved_schema(),
        Some(1)
    );
    assert_eq!(
        databases(&[], &[("a", "memory")]).first_unresolved_schema(),
        Some(0)
    );
}

#[test]
fn a_name_map_keeps_one_value_per_name_in_order() {
    let mut map: NameMap<u32> = NameMap::new();
    assert_eq!(map.insert(String::from("b"), 1), None);
    assert_eq!(map.insert(String::from("a"), 2), None);
    assert_eq!(map.insert(String::from("b"), 3), Some(1));
    assert_eq!(map.len(), 2);
    assert_eq!(map.name_at(0), "b");
    assert_eq!(*map.value_at(0), 3);
    assert_eq!(map.name_at(1), "a");
    assert_eq!(map.get(&String::from("a")), Some(&2));
    assert_eq!(map.get(&String::from("c")), None);
    assert!(map.contains_key(&String::from("b")));
    assert!(!map.contains_key(&String::from("B")));
    assert_eq!(map.position(&String::from("a")), Some(1));
    assert_eq!(map.position(&String::from("")), None);
}

#[test]
fn a_permission_state_is_a_permission_value() {
    let state: RoutePermissionState = RoutePermissionValue::Roles(vec![String::from("admin")]);
    match state {
        RoutePermissionState::Roles(roles) => assert_eq!(roles, vec![String::from("admin")]),
        RoutePermissionState::Global(_) => panic!("roles were given"),
    }
}
