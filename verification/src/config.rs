//! Configuration models
//!
//! The shapes in which the application's settings reach the library, the
//! defaults that stand in for what a file leaves out, and the rules by which
//! a file's text and the command line combine.

use crate::helpers::name_map::NameMap;
use vstd::prelude::*;
use vstd::string::StringExecFns;

verus! {

/// Object containing the application config
#[derive(Clone, Debug)]
pub struct Config {
    /// Basic server configuration
    pub server: ServerConfig,
    /// Database configuration
    pub databases: DatabaseConfig,
    /// Datastore configuration
    pub data_stores: NameMap<DataStoreConfig>,
    /// Authentication configuration
    pub authentication: Option<AuthenticationConfig>,
    /// Route configuration
    pub routes: NameMap<RouteConfig>,
}

/// Server configuration
#[derive(Clone, Debug)]
pub struct ServerConfig {
    /// Server host (0.0.0.0 for all hosts, 127.0.0.1 for localhost)
    pub host: String,
    /// Server port
    pub port: u16,
}

/// Database configuration
#[derive(Clone, Debug)]
pub struct DatabaseConfig {
    /// Database connection configuration
    pub connections: NameMap<DatabaseConnectionConfig>,
    /// Database schema configuration
    pub schemas: NameMap<DatabaseSchemaConfig>,
}

/// Database connection configuration
#[derive(Clone, Debug)]
pub enum DatabaseConnectionConfig {
    /// Sqlite3 database driver
    SQLite3 { database: String },
}

/// Database schema configuration
#[derive(Clone, Debug)]
pub struct DatabaseSchemaConfig {
    /// Database connection for the schema to use
    pub connection: String,
    /// Optional table prefix for this schema
    pub table_prefix: Option<String>,
}

/// Data store configuration, as a file gives it
#[derive(Clone, Debug)]
pub struct DataStoreConfig {
    /// Database schema for persisting data.
    /// If not set, data is not persisted to a database and will be lost at
    /// application shutdown.
    pub database_schema: Option<String>,
    /// Whether to keep history.
    /// If not set, the default (false) is used.
    pub keep_history: Option<bool>,
    /// Maximum age in seconds of previous values to keep for each key.
    /// Age is determined by the time the value was set.
    pub history_max_age: Option<u64>,
    /// Maximum number of previous values to keep for each key.
    /// Set to 0 to not keep history entries.
    pub history_max_entries: Option<u64>,
}

/// Datastore configuration, as a data store takes it
#[derive(Clone, Debug)]
pub struct DatastoreConfig {
    /// Database schema for persisting data.
    /// If not set, data is not persisted to a database and will be lost at
    /// application shutdown.
    pub database_schema: Option<String>,
    /// Whether to keep history.
    pub keep_history: bool,
    /// Maximum age in seconds of previous values to keep for each key.
    /// Age is determined by the time the value was set.
    pub history_max_age: Option<u64>,
    /// Maximum number of previous values to keep for each key.
    /// Set to 0 to not keep history entries.
    pub history_max_entries: Option<u64>,
}

/// Message queue configuration
#[derive(Clone, Debug)]
pub struct MessageQueueConfig {
    /// Database schema for persisting messages.
    /// If not set, messages are not persisted to a database.
    pub database_schema: Option<String>,
    /// How long a message is kept after it was sent, in seconds.
    /// If not set, messages do not expire.
    pub message_expiry: Option<u64>,
    /// How many messages are kept at each path.
    /// If not set, the number is not limited.
    pub message_limit: Option<u64>,
}

/// Authentication configuration
#[derive(Clone, Debug)]
pub struct AuthenticationConfig {
    /// Database schema to use for authentication
    pub database_schema: String,
    /// Authentication default setup
    pub defaults: AuthenticationDefaultsConfig,
}

/// Authentication defaults configuration
#[derive(Clone, Debug)]
pub struct AuthenticationDefaultsConfig {
    /// List of default roles
    pub roles: Vec<String>,
    /// Map of default users
    pub users: NameMap<AuthenticationDefaultUserConfig>,
}

/// Authentication default user configuration
#[derive(Clone, Debug)]
pub struct AuthenticationDefaultUserConfig {
    /// Default user password
    pub default_password: Option<String>,
    /// List of default user roles
    pub roles: Vec<String>,
}

/// Route configuration
#[derive(Clone, Debug)]
pub enum RouteConfig {
    /// Simple redirect handler
    Redirect { redirect_target: String },
    /// Basic file handler
    File { permissions: RoutePermissions, server_file_path: String, index_file: Option<String> },
    /// Datastore
    Data { permissions: RoutePermissions, data_store: Option<String> },
    /// Authentication endpoints
    Auth,
    /// Authentication management endpoints
    AuthAdmin { permissions: RoutePermissions },
}

/// Route permissions configuration
#[derive(Clone, Debug)]
pub struct RoutePermissions {
    /// Read permissions
    pub read: RoutePermissionValue,
    /// Write permissions
    pub write: RoutePermissionValue,
}

/// Route permission value
#[derive(Clone, Debug)]
pub enum RoutePermissionValue {
    /// Completely allow or deny permissions
    Global(bool),
    /// Only allow the listed roles
    Roles(Vec<String>),
}

/// Route permission state: another name of the route permission value.
pub type RoutePermissionState = RoutePermissionValue;

/// Creates the default server configuration
pub fn default_server() -> (server: ServerConfig)
    ensures
        server.host@ == "0.0.0.0"@,
        server.port == 8080,
{
    ServerConfig { host: String::from_str("0.0.0.0"), port: 8080 }
}

/// Creates the default database configuration
pub fn default_database() -> (databases: DatabaseConfig)
    ensures
        databases.connections.wf(),
        databases.schemas.wf(),
        databases.connections@ == Map::<Seq<char>, DatabaseConnectionConfig>::empty(),
        databases.schemas@ == Map::<Seq<char>, DatabaseSchemaConfig>::empty(),
{
    DatabaseConfig { connections: NameMap::new(), schemas: NameMap::new() }
}

/// Creates the default data store configuration
pub fn default_data_stores() -> (data_stores: NameMap<DataStoreConfig>)
    ensures
        data_stores.wf(),
        data_stores@ == Map::<Seq<char>, DataStoreConfig>::empty(),
{
    NameMap::new()
}

/// Defines read-only route permission for default routes
pub fn default_readonly_permissions() -> (permissions: RoutePermissions)
    ensures
        permissions.read == RoutePermissionValue::Global(true),
        permissions.write == RoutePermissionValue::Global(false),
{
    RoutePermissions {
        read: RoutePermissionValue::Global(true),
        write: RoutePermissionValue::Global(false),
    }
}

/// Whether `route` serves the files under "./client/" read-only, with
/// "index.html" as the index.
pub open spec fn is_default_route(route: RouteConfig) -> bool {
    &&& route matches RouteConfig::File { permissions, server_file_path, index_file }
    &&& permissions.read == RoutePermissionValue::Global(true)
    &&& permissions.write == RoutePermissionValue::Global(false)
    &&& server_file_path@ == "./client/"@
    &&& index_file matches Some(index)
    &&& index@ == "index.html"@
}

/// Creates the default route configuration: one route, "/", that serves
/// files read-only.
pub fn default_routes() -> (routes: NameMap<RouteConfig>)
    ensures
        routes.wf(),
        routes.names() == seq!["/"@],
        routes@.dom() == set!["/"@],
        is_default_route(routes@["/"@]),
{
    let mut routes: NameMap<RouteConfig> = NameMap::new();
    let _ = routes.insert(
        String::from_str("/"),
        RouteConfig::File {
            permissions: default_readonly_permissions(),
            server_file_path: String::from_str("./client/"),
            index_file: Some(String::from_str("index.html")),
        },
    );
    proof {
        assert(routes.names() =~= seq!["/"@]);
        assert(routes@.dom() =~= set!["/"@]);
    }
    routes
}

impl DataStoreConfig {
    /// The configuration as a data store takes it: history is kept only
    /// where the file asks for it.
    pub fn resolve(&self) -> (resolved: DatastoreConfig)
        ensures
            resolved.database_schema == self.database_schema,
            resolved.keep_history == (self.keep_history == Some(true)),
            resolved.history_max_age == self.history_max_age,
            resolved.history_max_entries == self.history_max_entries,
    {
        DatastoreConfig {
            database_schema: self.database_schema.clone(),
            keep_history: match self.keep_history {
                Some(keep) => keep,
                None => false,
            },
            history_max_age: self.history_max_age,
            history_max_entries: self.history_max_entries,
        }
    }
}

impl DatabaseConfig {
    /// Whether every schema up to `count` names a connection that is
    /// defined.
    pub open spec fn resolved_up_to(&self, count: int) -> bool {
        forall|i: int|
            0 <= i < count ==> self.connections@.contains_key(
                (#[trigger] self.schemas.values()[i]).connection@,
            )
    }

    /// The first schema that names a connection which is not defined.
    pub fn first_unresolved_schema(&self) -> (found: Option<usize>)
        requires
            self.connections.wf(),
            self.schemas.wf(),
        ensures
            match found {
                Some(i) => {
                    &&& i < self.schemas.names().len()
                    &&& self.resolved_up_to(i as int)
                    &&& !self.connections@.contains_key(self.schemas.values()[i as int].connection@)
                },
                None => self.resolved_up_to(self.schemas.names().len() as int),
            },
    {
        let mut i: usize = 0;
        while i < self.schemas.len()
            invariant
                self.connections.wf(),
                self.schemas.wf(),
                i <= self.schemas.names().len(),
                self.resolved_up_to(i as int),
            decreases self.schemas.names().len() - i,
        {
            if !self.connections.contains_key(&self.schemas.value_at(i).connection) {
                return Some(i);
            }
            i = i + 1;
        }
        None
    }
}

impl Config {
    /// The text to read the configuration from: what the file holds, or an
    /// empty object where there is no file or the file is empty.
    pub fn text_or_default(contents: Option<String>) -> (text: String)
        ensures
            text@ == match contents {
                Some(held) if held@.len() > 0 => held@,
                _ => "{}"@,
            },
    {
        match contents {
            Some(held) => {
                if held.as_str().unicode_len() > 0 {
                    held
                } else {
                    String::from_str("{}")
                }
            },
            None => String::from_str("{}"),
        }
    }

    /// Lets the command line overrule the file: a port and a host given
    /// there replace those of the configuration.
    pub fn with_overrides(self, port: Option<u16>, host: Option<String>) -> (config: Config)
        ensures
            config.server.port == match port {
                Some(given) => given,
                None => self.server.port,
            },
            config.server.host == match host {
                Some(given) => given,
                None => self.server.host,
            },
            config.databases == self.databases,
            config.data_stores == self.data_stores,
            config.authentication == self.authentication,
            config.routes == self.routes,
    {
        let mut config = self;
        if let Some(given) = host {
            config.server.host = given;
        }
        if let Some(given) = port {
            config.server.port = given;
        }
        config
    }
}

} // verus!
