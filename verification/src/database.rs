//! Database module
//!
//! What the stores need from a database, as far as it is a matter of rules:
//! how the tables of a store are named, how a path is walked through the tree
//! table, and which rows of a key's history are kept.

use crate::config::DatabaseConnectionConfig;
use crate::config::DatabaseSchemaConfig;
use crate::config::DatastoreConfig;
use crate::helpers::cursor::Identified;
use crate::helpers::retention::Stamped;
use crate::helpers::system::push_char;
use vstd::prelude::*;
use vstd::string::StringExecFns;

verus! {

/// Trait for a database driver
pub trait DbDriver: Sized {
    /// Connects to the database that `config` names.
    fn new(config: &DatabaseConnectionConfig) -> Self;
}

/// What a data store tells the database about itself.
#[derive(Clone, Debug)]
pub struct DatastoreDatabaseConfig {
    pub namespace: Option<String>,
    pub store_name: String,
    pub keep_history: bool,
    /// Maximum age of previous values, in seconds.
    pub max_age: Option<u64>,
    pub max_entries: Option<u64>,
}

/// The metadata of one value in a key's history.
#[derive(Clone, Copy, Debug, PartialEq, Eq, Structural)]
pub struct DatastoreValueMeta {
    /// The row of the value
    pub id: u64,
    /// The identifier of the change that wrote the value
    pub change_id: u128,
    /// When the value was set, in microseconds since the Unix epoch
    pub timestamp: i64,
}

impl Identified for DatastoreValueMeta {
    open spec fn ident(&self) -> u128 {
        self.change_id
    }

    fn identifier(&self) -> (id: u128) {
        self.change_id
    }
}

impl Stamped for DatastoreValueMeta {
    open spec fn stamp(&self) -> i64 {
        self.timestamp
    }

    fn timestamp(&self) -> (micros: i64) {
        self.timestamp
    }
}

/// Whether a character may stand in a table name.
pub open spec fn is_table_name_char(c: char) -> bool {
    ||| '0' <= c <= '9'
    ||| 'A' <= c <= 'Z'
    ||| 'a' <= c <= 'z'
    ||| c == '_'
}

/// The test for the characters that may stand in a table name.
pub open spec fn table_name_chars() -> spec_fn(char) -> bool {
    |c: char| is_table_name_char(c)
}

/// `name` without the characters that may not stand in a table name.
pub open spec fn sanitized(name: Seq<char>) -> Seq<char> {
    name.filter(table_name_chars())
}

/// What separates the parts of a table name.
pub open spec fn table_name_separator() -> Seq<char> {
    seq!['_', '_']
}

/// One part of a table prefix: the sanitized name and the separator, or
/// nothing where there is no name.
pub open spec fn prefix_part(name: Option<Seq<char>>) -> Seq<char> {
    match name {
        Some(name) => sanitized(name) + table_name_separator(),
        None => Seq::empty(),
    }
}

/// The prefix of the tables of the store `store_name` in the namespace
/// `table_prefix`.
pub open spec fn table_prefix_of(table_prefix: Option<Seq<char>>, store_name: Option<Seq<char>>) -> Seq<
    char,
> {
    prefix_part(table_prefix) + prefix_part(store_name)
}

/// Every character of a text may stand in a table name.
pub open spec fn is_table_name(text: Seq<char>) -> bool {
    forall|i: int| 0 <= i < text.len() ==> is_table_name_char(#[trigger] text[i])
}

/// Name safety. Whatever the namespace and the store are called, the prefix
/// of their tables is made of letters, digits and underscores only.
pub proof fn lemma_table_prefix_is_safe(
    table_prefix: Option<Seq<char>>,
    store_name: Option<Seq<char>>,
)
    ensures
        is_table_name(table_prefix_of(table_prefix, store_name)),
{
    assert forall|name: Option<Seq<char>>| is_table_name(#[trigger] prefix_part(name)) by {
        match name {
            Some(name) => {
                assert forall|i: int| 0 <= i < sanitized(name).len() implies is_table_name_char(
                    #[trigger] sanitized(name)[i],
                ) by {
                    name.lemma_filter_pred(table_name_chars(), i);
                    assert(table_name_chars()(sanitized(name)[i]));
                }
            },
            None => {},
        }
    }
    assert(is_table_name(prefix_part(table_prefix)));
    assert(is_table_name(prefix_part(store_name)));
}

fn table_name_char(c: char) -> (allowed: bool)
    ensures
        allowed == is_table_name_char(c),
{
    ('0' <= c && c <= '9') || ('A' <= c && c <= 'Z') || ('a' <= c && c <= 'z') || c == '_'
}

/// Appends to `out` the characters of `name` that may stand in a table name.
fn push_sanitized(out: &mut String, name: &str)
    ensures
        final(out)@ == old(out)@ + sanitized(name@),
{
    let ghost before = out@;
    let len = name.unicode_len();
    let mut at: usize = 0;
    proof {
        reveal(Seq::filter);
        assert(name@.take(0).filter(table_name_chars()) =~= Seq::<char>::empty());
        assert(out@ =~= before + name@.take(0).filter(table_name_chars()));
    }
    while at < len
        invariant
            len == name@.len(),
            at <= len,
            out@ == before + name@.take(at as int).filter(table_name_chars()),
        decreases len - at,
    {
        let c = name.get_char(at);
        proof {
            reveal(Seq::filter);
            assert(name@.take(at + 1).drop_last() =~= name@.take(at as int));
            assert(name@.take(at + 1).last() == c);
        }
        if table_name_char(c) {
            push_char(out, c);
            proof {
                assert(out@ =~= before + name@.take(at + 1).filter(table_name_chars()));
            }
        }
        at = at + 1;
    }
    proof {
        assert(name@.take(len as int) =~= name@);
    }
}

/// `name` without the characters that may not stand in a table name.
pub fn sanitize_table_name(name: &str) -> (clean: String)
    ensures
        clean@ == sanitized(name@),
{
    let mut clean = String::new();
    push_sanitized(&mut clean, name);
    proof {
        assert(clean@ =~= sanitized(name@));
    }
    clean
}

fn push_prefix_part(out: &mut String, name: Option<&str>)
    ensures
        final(out)@ == old(out)@ + prefix_part(
            match name {
                Some(name) => Some(name@),
                None => None,
            },
        ),
{
    match name {
        Some(name) => {
            push_sanitized(out, name);
            push_char(out, '_');
            push_char(out, '_');
            proof {
                assert(out@ =~= old(out)@ + (sanitized(name@) + table_name_separator()));
            }
        },
        None => {
            proof {
                assert(out@ =~= old(out)@ + Seq::<char>::empty());
            }
        },
    }
}

/// The prefix of the tables of the store `store_name` in the namespace
/// `table_prefix`: both names sanitized, each followed by the separator.
pub fn get_table_prefix(table_prefix: Option<&str>, store_name: Option<&str>) -> (table_name: String)
    ensures
        table_name@ == table_prefix_of(
            match table_prefix {
                Some(name) => Some(name@),
                None => None,
            },
            match store_name {
                Some(name) => Some(name@),
                None => None,
            },
        ),
        is_table_name(table_name@),
{
    let mut table_name = String::new();
    push_prefix_part(&mut table_name, table_prefix);
    push_prefix_part(&mut table_name, store_name);
    proof {
        let a = match table_prefix {
            Some(name) => Some(name@),
            None => None,
        };
        let b = match store_name {
            Some(name) => Some(name@),
            None => None,
        };
        assert(table_name@ =~= table_prefix_of(a, b));
        lemma_table_prefix_is_safe(a, b);
    }
    table_name
}

impl DatastoreDatabaseConfig {
    /// What the store `store_name` tells a database of the given schema.
    pub fn new(
        store_name: &str,
        schema_config: &DatabaseSchemaConfig,
        datastore_config: &DatastoreConfig,
    ) -> (config: Self)
        ensures
            config.namespace == schema_config.table_prefix,
            config.store_name@ == store_name@,
            config.keep_history == datastore_config.keep_history,
            config.max_age == datastore_config.history_max_age,
            config.max_entries == datastore_config.history_max_entries,
    {
        Self {
            namespace: schema_config.table_prefix.clone(),
            store_name: String::from_str(store_name),
            keep_history: datastore_config.keep_history,
            max_age: datastore_config.history_max_age,
            max_entries: datastore_config.history_max_entries,
        }
    }

    /// The prefix of the store's tables.
    pub fn table_prefix(&self) -> (prefix: String)
        ensures
            prefix@ == table_prefix_of(
                match self.namespace {
                    Some(name) => Some(name@),
                    None => None,
                },
                Some(self.store_name@),
            ),
            is_table_name(prefix@),
    {
        let namespace = match &self.namespace {
            Some(name) => Some(name.as_str()),
            None => None,
        };
        get_table_prefix(namespace, Some(self.store_name.as_str()))
    }
}

/// What a walk through the tree table asks of the database next.
#[derive(Clone, Copy, Debug, PartialEq, Eq, Structural)]
pub enum KeyWalkStep {
    /// Look up the node under `parent_id` whose key is segment `depth` of
    /// the path.
    Select { parent_id: Option<i64>, depth: usize },
    /// Create the node under `parent_id` with segment `depth` of the path as
    /// its key.
    Insert { parent_id: Option<i64>, depth: usize },
    /// The walk has reached the node of the path; None names the root.
    Found { node_id: Option<i64> },
    /// The path has no node, and none was to be created.
    Missing,
}

/// A walk from the root of the tree table along a path, one segment at a
/// time. The walk decides; the caller asks the database and reports back.
#[derive(Clone, Copy, Debug, PartialEq, Eq, Structural)]
pub struct KeyWalk {
    /// The number of segments of the path
    pub length: usize,
    /// Whether missing nodes are created
    pub create: bool,
    /// How many segments have been walked
    pub depth: usize,
    /// The node reached so far; None names the root
    pub parent_id: Option<i64>,
}

impl KeyWalk {
    /// What the walk asks next while nothing is outstanding.
    pub open spec fn pending(self) -> KeyWalkStep {
        if self.depth < self.length {
            KeyWalkStep::Select { parent_id: self.parent_id, depth: self.depth }
        } else {
            KeyWalkStep::Found { node_id: self.parent_id }
        }
    }

    /// The walk once segment `depth` was found or created as `node_id`.
    pub open spec fn descended(self, node_id: i64) -> KeyWalk {
        KeyWalk {
            length: self.length,
            create: self.create,
            depth: (self.depth + 1) as usize,
            parent_id: Some(node_id),
        }
    }

    /// Starts a walk along a path of `length` segments.
    pub fn begin(length: usize, create: bool) -> (started: (KeyWalk, KeyWalkStep))
        ensures
            started.0 == (KeyWalk { length, create, depth: 0, parent_id: None }),
            started.1 == started.0.pending(),
    {
        let walk = KeyWalk { length, create, depth: 0, parent_id: None };
        let step = walk.next_step();
        (walk, step)
    }

    fn next_step(&self) -> (step: KeyWalkStep)
        ensures
            step == self.pending(),
    {
        if self.depth < self.length {
            KeyWalkStep::Select { parent_id: self.parent_id, depth: self.depth }
        } else {
            KeyWalkStep::Found { node_id: self.parent_id }
        }
    }

    /// Takes the answer to a `Select`: the node that was found, if any. A
    /// node leads one segment deeper; without one the walk asks for the node
    /// to be created where it creates, and ends otherwise.
    pub fn selected(&mut self, found: Option<i64>) -> (step: KeyWalkStep)
        requires
            old(self).depth < old(self).length,
        ensures
            match found {
                Some(node_id) => {
                    &&& *final(self) == old(self).descended(node_id)
                    &&& step == final(self).pending()
                },
                None => *final(self) == *old(self) && step == if old(self).create {
                    KeyWalkStep::Insert { parent_id: old(self).parent_id, depth: old(self).depth }
                } else {
                    KeyWalkStep::Missing
                },
            },
    {
        match found {
            Some(node_id) => {
                self.depth = self.depth + 1;
                self.parent_id = Some(node_id);
                self.next_step()
            },
            None => {
                if self.create {
                    KeyWalkStep::Insert { parent_id: self.parent_id, depth: self.depth }
                } else {
                    KeyWalkStep::Missing
                }
            },
        }
    }

    /// Takes the answer to an `Insert`: the row of the node that was
    /// created. The walk goes on one segment deeper.
    pub fn inserted(&mut self, node_id: i64) -> (step: KeyWalkStep)
        requires
            old(self).depth < old(self).length,
        ensures
            *final(self) == old(self).descended(node_id),
            step == final(self).pending(),
    {
        self.depth = self.depth + 1;
        self.parent_id = Some(node_id);
        self.next_step()
    }
}

} // verus!
