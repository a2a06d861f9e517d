//! History-Tracking Change-Subscribable Tree-Based Key-Value Data Store
//!
//! A store is a tree of keys named by paths. Every key has a history: the
//! values that were set for it, oldest first, a deletion being a value that
//! is None. The newest entry of the history is the key's current value.
//! Subscriptions name one path each and are told of every change there.

use crate::config::DatastoreConfig;
use crate::database::DatastoreValueMeta;
use crate::helpers::cursor::cursor_start;
use crate::helpers::cursor::lemma_cursor_at;
use crate::helpers::cursor::owed_after;
use crate::helpers::cursor::Identified;
use crate::helpers::id_text::format_id;
use crate::helpers::id_text::hex_text;
use crate::helpers::id_text::parse_id;
use crate::helpers::id_text::parse_id_text;
use crate::helpers::id_text::ParseIdError;
use crate::helpers::path_tree::path_view;
use crate::helpers::path_tree::Blank;
use crate::helpers::path_tree::PathTree;
use crate::helpers::retention::count_purged;
use crate::helpers::retention::in_time_order;
use crate::helpers::retention::kept_history;
use crate::helpers::retention::lemma_kept_history;
use crate::helpers::retention::stamp_after;
use crate::helpers::retention::stamped;
use crate::helpers::retention::Stamped;
use crate::helpers::system::random_uuid_bits;
use crate::helpers::system::share;
use crate::helpers::system::utc_now_micros;
use crate::helpers::tlru_cache::without_key;
use crate::helpers::tlru_cache::CacheView;
use crate::helpers::tlru_cache::TLRUCache;
use std::collections::HashMap;
use std::collections::HashSet;
use std::sync::Arc;
use vstd::prelude::*;
use vstd::string::StringExecFns;

verus! {

/// How many values the cache of a store holds at most.
pub const ITEM_CACHE_MAX_ITEMS: usize = 1000;

/// For how long the cache of a store holds a value that nobody asks for, in
/// nanoseconds: one hour.
pub const ITEM_CACHE_MAX_ACCESS_AGE: u128 = 3_600_000_000_000;

/// The identifier of a change. The value zero stands for "no change".
#[derive(Copy, Clone, Debug, PartialEq, Eq, Structural)]
pub struct ChangeId {
    id: u128,
}

impl ChangeId {
    /// The identifier as a number.
    pub closed spec fn value(&self) -> u128 {
        self.id
    }

    /// An identifier is its number: two identifiers with the same number
    /// are the same identifier.
    pub proof fn lemma_number_decides(self, other: Self)
        ensures
            self.value() == other.value() <==> self == other,
    {
    }

    /// The reserved identifier that names no change.
    pub fn none() -> (reserved: Self)
        ensures
            reserved.value() == 0,
    {
        Self { id: 0 }
    }

    /// A fresh random identifier. It is never the reserved one.
    pub fn new() -> (fresh: Self)
        ensures
            fresh.value() != 0,
    {
        let bits = random_uuid_bits();
        assert(bits != 0) by (bit_vector)
            requires
                bits & 0xF000_0000_0000_0000_0000 == 0x4000_0000_0000_0000_0000,
        ;
        Self { id: bits }
    }

    /// The identifier with the given number.
    pub fn from_u128(id: u128) -> (made: Self)
        ensures
            made.value() == id,
    {
        Self { id }
    }

    /// The identifier as a number.
    pub fn as_u128(&self) -> (id: u128)
        ensures
            id == self.value(),
    {
        self.id
    }

    /// The identifier as 32 lowercase hexadecimal digits.
    pub fn to_string(&self) -> (text: String)
        ensures
            text@ == hex_text(self.value()),
    {
        format_id(self.id)
    }

    /// Reads an identifier from hexadecimal digits; see `parse_id`.
    pub fn parse(text: &str) -> (parsed: Result<Self, ParseIdError>)
        ensures
            match parsed {
                Ok(id) => parse_id(text@) == Ok::<nat, ParseIdError>(id.value() as nat),
                Err(e) => parse_id(text@) == Err::<nat, ParseIdError>(e),
            },
    {
        match parse_id_text(text) {
            Ok(id) => Ok(Self { id }),
            Err(e) => Err(e),
        }
    }
}

/// Object returned by the datastore api
pub struct Value<T> {
    /// The current value, None if not set or deleted
    pub value: Option<T>,
    /// The path of the value
    pub path: Vec<String>,
    /// The time at which this value was set (server time), in microseconds
    /// since the Unix epoch
    pub timestamp: i64,
    /// Change ID
    pub change_id: ChangeId,
}

impl<T> Stamped for Arc<Value<T>> {
    open spec fn stamp(&self) -> i64 {
        self.timestamp
    }

    fn timestamp(&self) -> (micros: i64) {
        self.timestamp
    }
}

impl<T> Value<T> {
    /// The value that stands for a key without history: None, under the
    /// reserved change identifier and the time zero.
    pub fn absent(path: Vec<String>) -> (value: Self)
        ensures
            value.value is None,
            value.path == path,
            value.timestamp == 0,
            value.change_id.value() == 0,
    {
        Value { value: None, path, timestamp: 0, change_id: ChangeId::none() }
    }

    /// The value of a row of a database: what the row says of the change
    /// and its time, with the path and the decoded payload.
    pub fn of_row(path: Vec<String>, meta: &DatastoreValueMeta, value: Option<T>) -> (made: Self)
        ensures
            made.value == value,
            made.path == path,
            made.timestamp == meta.timestamp,
            made.change_id.value() == meta.change_id,
    {
        Value {
            value,
            path,
            timestamp: meta.timestamp,
            change_id: ChangeId::from_u128(meta.change_id),
        }
    }
}

/// What is to be done to have the value of a row of a database.
pub enum Lookup<T> {
    /// Nothing more: the cache held the value.
    Cached(Arc<Value<T>>),
    /// The payload of this change is to be fetched and decoded.
    Fetch(ChangeId),
}

impl<T> Identified for Arc<Value<T>> {
    open spec fn ident(&self) -> u128 {
        self.change_id.value()
    }

    fn identifier(&self) -> (id: u128) {
        self.change_id.as_u128()
    }
}

/// What a reader who has seen the change `cursor` is still owed of
/// `history`: the entries after it. A reader without a cursor, or with one
/// that `history` does not hold, is owed all of it.
pub open spec fn after_change<T>(history: Seq<Arc<Value<T>>>, cursor: Option<ChangeId>) -> Seq<
    Arc<Value<T>>,
> {
    owed_after(
        history,
        match cursor {
            Some(id) => Some(id.value()),
            None => None,
        },
    )
}

/// Whether a key with this history has a value: the newest entry is no
/// deletion.
pub open spec fn is_live<T>(history: Seq<Arc<Value<T>>>) -> bool {
    history.len() > 0 && history.last().value is Some
}

/// What a node of the store holds.
struct StoreNode<T> {
    /// The values that were set for the key, oldest first
    history: Vec<Arc<Value<T>>>,
    /// The subscriptions to the key, in the order in which they came
    subscribers: Vec<u128>,
}

impl<T> Blank for StoreNode<T> {
    closed spec fn is_blank(&self) -> bool {
        self.history@.len() == 0 && self.subscribers@.len() == 0
    }

    fn blank() -> (fresh: Self) {
        StoreNode { history: Vec::new(), subscribers: Vec::new() }
    }
}

/// A copy of a list of identifiers.
fn copy_ids(ids: &Vec<u128>) -> (copy: Vec<u128>)
    ensures
        copy@ == ids@,
{
    let mut copy: Vec<u128> = Vec::new();
    let mut at: usize = 0;
    while at < ids.len()
        invariant
            at <= ids.len(),
            copy@ == ids@.take(at as int),
        decreases ids.len() - at,
    {
        copy.push(ids[at]);
        proof {
            assert(copy@ =~= ids@.take(at + 1));
        }
        at = at + 1;
    }
    proof {
        assert(ids@.take(ids.len() as int) =~= ids@);
    }
    copy
}

/// A copy of a path.
fn copy_path(path: &Vec<String>) -> (copy: Vec<String>)
    ensures
        copy@ == path@,
{
    let mut copy: Vec<String> = Vec::new();
    let mut at: usize = 0;
    while at < path.len()
        invariant
            at <= path.len(),
            copy@ == path@.take(at as int),
        decreases path.len() - at,
    {
        copy.push(path[at].clone());
        proof {
            assert(copy@ =~= path@.take(at + 1));
        }
        at = at + 1;
    }
    proof {
        assert(path@.take(path.len() as int) =~= path@);
    }
    copy
}

/// The entries of `history` that a reader with `cursor` is still owed.
fn newer_than<T>(history: &Vec<Arc<Value<T>>>, cursor: &Option<ChangeId>) -> (owed: Vec<
    Arc<Value<T>>,
>)
    ensures
        owed@ == after_change(history@, *cursor),
{
    let start = cursor_start(
        history,
        match cursor {
            Some(id) => Some(id.as_u128()),
            None => None,
        },
    );
    let mut owed: Vec<Arc<Value<T>>> = Vec::new();
    let mut next: usize = start;
    proof {
        assert(owed@ =~= history@.subrange(start as int, start as int));
    }
    while next < history.len()
        invariant
            start <= next <= history.len(),
            owed@ == history@.subrange(start as int, next as int),
        decreases history.len() - next,
    {
        owed.push(share(&history[next]));
        proof {
            assert(owed@ =~= history@.subrange(start as int, next + 1));
        }
        next = next + 1;
    }
    proof {
        assert(history@.subrange(start as int, history@.len() as int) =~= history@.skip(
            start as int,
        ));
    }
    owed
}

/// What the store knows of one subscription.
struct SubscriptionRecord<C> {
    /// The path that the subscription names
    path: Vec<String>,
    /// The node of that path
    node: usize,
    /// Where the subscriber is told of changes
    notification_channel: C,
}

/// What a write hands back: the value as the store keeps it, and the
/// subscriptions that are to be told of it.
pub struct Change<T> {
    pub value: Arc<Value<T>>,
    pub subscriptions: Vec<u128>,
}

/// Why a write was refused.
#[derive(Clone, Copy, Debug, PartialEq, Eq, Structural)]
pub enum WriteError {
    /// The store already holds a value under the change identifier.
    DuplicateChange,
}

/// Whether node `node` has an entry number `i` in its history.
spec fn is_entry<T>(tree: PathTree<StoreNode<T>>, node: int, i: int) -> bool {
    tree.has_node(node) && 0 <= i < tree.data_of(node).history@.len()
}

/// The change identifier of entry `i` of node `node`.
spec fn entry_id<T>(tree: PathTree<StoreNode<T>>, node: int, i: int) -> u128 {
    tree.data_of(node).history@[i].change_id.id
}

/// The set `known` holds the change identifiers of the entries of all
/// histories and nothing else, and no two entries have the same identifier.
spec fn changes_recorded<T>(tree: PathTree<StoreNode<T>>, known: Set<u128>) -> bool {
    &&& forall|node: int, i: int|
        is_entry(tree, node, i) ==> known.contains(#[trigger] entry_id(tree, node, i))
    &&& forall|n1: int, i1: int, n2: int, i2: int|
        is_entry(tree, n1, i1) && is_entry(tree, n2, i2) && #[trigger] entry_id(tree, n1, i1)
            == #[trigger] entry_id(tree, n2, i2) ==> n1 == n2 && i1 == i2
    &&& forall|id: u128|
        known.contains(id) ==> exists|node: int, i: int|
            is_entry(tree, node, i) && #[trigger] entry_id(tree, node, i) == id
}

/// A write keeps the record of the changes: the tree grew by blank nodes,
/// one node got the new value behind its history and lost its `purged`
/// oldest entries, and the set of identifiers followed.
proof fn lemma_write_keeps_record<T>(
    former: PathTree<StoreNode<T>>,
    grown: PathTree<StoreNode<T>>,
    tree: PathTree<StoreNode<T>>,
    known: Set<u128>,
    now_known: Set<u128>,
    node: int,
    value: Arc<Value<T>>,
    purged: int,
    path: Seq<Seq<char>>,
)
    requires
        changes_recorded(former, known),
        former.extended_by(&grown),
        grown.blank_from(former.node_count(), path),
        tree.same_shape(&grown),
        grown.has_node(node),
        forall|other: int|
            grown.has_node(other) && other != node ==> #[trigger] tree.data_of(other)
                == grown.data_of(other),
        0 <= purged <= grown.data_of(node).history@.len(),
        tree.data_of(node).history@ == grown.data_of(node).history@.push(value).skip(purged),
        !known.contains(value.change_id.id),
        forall|id: u128| #[trigger]
            now_known.contains(id) <==> (id == value.change_id.id || (known.contains(id)
                && none_has(grown.data_of(node).history@, purged, id))),
    ensures
        changes_recorded(tree, now_known),
{
    let fresh = value.change_id.id;
    let before = grown.data_of(node).history@;
    let after = tree.data_of(node).history@;
    // what a node of the grown tree holds is what the former tree held there
    assert forall|n: int, i: int| is_entry(grown, n, i) implies is_entry(former, n, i)
        && #[trigger] entry_id(grown, n, i) == entry_id(former, n, i) by {
        if n < former.node_count() {
            assert(grown.path_of(n) == former.path_of(n));
        } else {
            assert(grown.data_of(n).is_blank());
        }
    }
    assert forall|n: int, i: int| is_entry(former, n, i) implies is_entry(grown, n, i)
        && entry_id(grown, n, i) == #[trigger] entry_id(former, n, i) by {
        assert(grown.path_of(n) == former.path_of(n));
    }
    // where an entry of the new tree comes from
    assert forall|n: int, i: int| is_entry(tree, n, i) implies {
        let j = if n == node {
            i + purged
        } else {
            i
        };
        if n == node && j == before.len() {
            #[trigger] entry_id(tree, n, i) == fresh
        } else {
            is_entry(grown, n, j) && entry_id(tree, n, i) == entry_id(grown, n, j)
        }
    } by {
        assert(tree.path_of(n) == grown.path_of(n));
        if n == node {
            assert(after[i] == before.push(value)[i + purged]);
        } else {
            assert(tree.data_of(n) == grown.data_of(n));
        }
    }
    assert forall|n: int, i: int| is_entry(tree, n, i) implies now_known.contains(
        #[trigger] entry_id(tree, n, i),
    ) by {
        let j = if n == node {
            i + purged
        } else {
            i
        };
        if !(n == node && j == before.len()) {
            let id = entry_id(grown, n, j);
            assert(entry_id(former, n, j) == id);
            assert forall|k: int| 0 <= k < purged implies (#[trigger] before[k]).change_id.id
                != id by {
                assert(entry_id(grown, node, k) == before[k].change_id.id);
                assert(is_entry(grown, node, k));
                assert(entry_id(former, node, k) == entry_id(grown, node, k));
            }
        }
    }
    assert forall|n1: int, i1: int, n2: int, i2: int|
        is_entry(tree, n1, i1) && is_entry(tree, n2, i2) && #[trigger] entry_id(tree, n1, i1)
            == #[trigger] entry_id(tree, n2, i2) implies n1 == n2 && i1 == i2 by {
        let j1 = if n1 == node {
            i1 + purged
        } else {
            i1
        };
        let j2 = if n2 == node {
            i2 + purged
        } else {
            i2
        };
        let new1 = n1 == node && j1 == before.len();
        let new2 = n2 == node && j2 == before.len();
        if !new1 {
            assert(entry_id(former, n1, j1) == entry_id(grown, n1, j1));
            assert(known.contains(entry_id(former, n1, j1)));
        }
        if !new2 {
            assert(entry_id(former, n2, j2) == entry_id(grown, n2, j2));
            assert(known.contains(entry_id(former, n2, j2)));
        }
    }
    assert forall|id: u128| now_known.contains(id) implies exists|n: int, i: int|
        is_entry(tree, n, i) && #[trigger] entry_id(tree, n, i) == id by {
        if id == fresh {
            let last = after.len() - 1;
            assert(after[last] == before.push(value)[last + purged]);
            assert(is_entry(tree, node, last) && entry_id(tree, node, last) == id);
        } else {
            let (n, j) = choose|n: int, j: int|
                is_entry(former, n, j) && #[trigger] entry_id(former, n, j) == id;
            assert(is_entry(grown, n, j) && entry_id(grown, n, j) == id);
            assert(tree.path_of(n) == grown.path_of(n));
            if n == node {
                if j < purged {
                    assert(before[j].change_id.id == id);
                }
                assert(after[j - purged] == before.push(value)[j]);
                assert(is_entry(tree, n, j - purged) && entry_id(tree, n, j - purged) == id);
            } else {
                assert(tree.data_of(n) == grown.data_of(n));
                assert(is_entry(tree, n, j) && entry_id(tree, n, j) == id);
            }
        }
    }
}

/// A tree whose histories are those of another tree records the same
/// changes.
proof fn lemma_record_kept<T>(
    former: PathTree<StoreNode<T>>,
    tree: PathTree<StoreNode<T>>,
    known: Set<u128>,
)
    requires
        changes_recorded(former, known),
        former.node_count() <= tree.node_count(),
        forall|node: int|
            former.has_node(node) ==> (#[trigger] tree.data_of(node)).history == former.data_of(
                node,
            ).history,
        forall|node: int|
            former.node_count() <= node && node < tree.node_count() ==> (#[trigger] tree.data_of(
                node,
            )).history@.len() == 0,
    ensures
        changes_recorded(tree, known),
{
    assert forall|n: int, i: int| is_entry(tree, n, i) implies is_entry(former, n, i)
        && #[trigger] entry_id(tree, n, i) == entry_id(former, n, i) by {
        if former.has_node(n) {
            assert(tree.data_of(n).history == former.data_of(n).history);
        } else {
            assert(tree.data_of(n).history@.len() == 0);
        }
    }
    assert forall|n: int, i: int| is_entry(former, n, i) implies is_entry(tree, n, i)
        && entry_id(tree, n, i) == #[trigger] entry_id(former, n, i) by {
        assert(tree.data_of(n).history == former.data_of(n).history);
    }
    assert forall|n: int, i: int| is_entry(tree, n, i) implies known.contains(
        #[trigger] entry_id(tree, n, i),
    ) by {
        assert(known.contains(entry_id(former, n, i)));
    }
    assert forall|n1: int, i1: int, n2: int, i2: int|
        is_entry(tree, n1, i1) && is_entry(tree, n2, i2) && #[trigger] entry_id(tree, n1, i1)
            == #[trigger] entry_id(tree, n2, i2) implies n1 == n2 && i1 == i2 by {
        assert(entry_id(former, n1, i1) == entry_id(former, n2, i2));
    }
    assert forall|id: u128| known.contains(id) implies exists|n: int, i: int|
        is_entry(tree, n, i) && #[trigger] entry_id(tree, n, i) == id by {
        let (n, i) = choose|n: int, i: int|
            is_entry(former, n, i) && #[trigger] entry_id(former, n, i) == id;
        assert(is_entry(tree, n, i) && entry_id(tree, n, i) == id);
    }
}

/// None of the first `count` entries is of change `id`.
spec fn none_has<T>(entries: Seq<Arc<Value<T>>>, count: int, id: u128) -> bool {
    forall|i: int| 0 <= i < count ==> (#[trigger] entries[i]).change_id.id != id
}

/// Takes the `count` oldest entries off a history and their change
/// identifiers out of `known`.
fn forget_front<T>(history: &mut Vec<Arc<Value<T>>>, count: usize, known: &mut HashSet<u128>)
    requires
        count <= old(history)@.len(),
    ensures
        final(history)@ == old(history)@.skip(count as int),
        forall|id: u128| #[trigger]
            final(known)@.contains(id) <==> (old(known)@.contains(id) && none_has(
                old(history)@,
                count as int,
                id,
            )),
{
    broadcast use vstd::std_specs::hash::group_hash_axioms;

    let ghost before = history@;
    let ghost known_before = known@;
    let mut done: usize = 0;
    proof {
        assert(history@ =~= before.skip(0));
    }
    while done < count
        invariant
            done <= count <= before.len(),
            history@ == before.skip(done as int),
            forall|id: u128| #[trigger]
                known@.contains(id) <==> (known_before.contains(id) && none_has(
                    before,
                    done as int,
                    id,
                )),
        decreases count - done,
    {
        let ghost held = known@;
        let gone = history.remove(0);
        let _ = known.remove(&gone.change_id.id);
        proof {
            assert(gone == before[done as int]);
            assert(history@ =~= before.skip(done + 1));
            assert forall|id: u128| #[trigger]
                known@.contains(id) <==> (known_before.contains(id) && none_has(
                    before,
                    done + 1,
                    id,
                )) by {
                assert(known@.contains(id) <==> (held.contains(id) && id != gone.change_id.id));
                assert(held.contains(id) <==> (known_before.contains(id) && none_has(
                    before,
                    done as int,
                    id,
                )));
                if none_has(before, done + 1, id) {
                    assert(before[done as int].change_id.id != id);
                    assert(none_has(before, done as int, id));
                }
                if none_has(before, done as int, id) && id != gone.change_id.id {
                    assert(none_has(before, done + 1, id));
                }
            }
        }
        done = done + 1;
    }
}

/// The two indices of the subscriptions agree: every subscription sits in
/// the list of the node of its path, the lists hold subscriptions only, and
/// none of them twice.
spec fn indices_agree<T, C>(
    tree: PathTree<StoreNode<T>>,
    by_id: Map<u128, SubscriptionRecord<C>>,
) -> bool {
    &&& forall|id: u128|
        by_id.contains_key(id) ==> {
            let record = #[trigger] by_id[id];
            &&& tree.has_node(record.node as int)
            &&& tree.path_of(record.node as int) == path_view(record.path@)
            &&& tree.data_of(record.node as int).subscribers@.contains(id)
        }
    &&& forall|node: int, i: int|
        tree.has_node(node) && 0 <= i < tree.data_of(node).subscribers@.len() ==> {
            let id = #[trigger] tree.data_of(node).subscribers@[i];
            &&& by_id.contains_key(id)
            &&& by_id[id].node == node
        }
    &&& forall|node: int|
        tree.has_node(node) ==> (#[trigger] tree.data_of(node)).subscribers@.no_duplicates()
}

/// The histories of all nodes are in the order of their times.
spec fn histories_ordered<T>(tree: PathTree<StoreNode<T>>) -> bool {
    forall|node: int| tree.has_node(node) ==> in_time_order((#[trigger] tree.data_of(node)).history@)
}

/// A tree whose old nodes kept their lists of subscribers, and whose new
/// nodes have none, agrees with the index by identifier as before.
proof fn lemma_indices_kept<T, C>(
    former: PathTree<StoreNode<T>>,
    tree: PathTree<StoreNode<T>>,
    by_id: Map<u128, SubscriptionRecord<C>>,
)
    requires
        indices_agree(former, by_id),
        former.node_count() <= tree.node_count(),
        forall|node: int|
            former.has_node(node) ==> {
                &&& #[trigger] tree.path_of(node) == former.path_of(node)
                &&& tree.data_of(node).subscribers == former.data_of(node).subscribers
            },
        forall|node: int|
            former.node_count() <= node && node < tree.node_count() ==> (#[trigger] tree.data_of(
                node,
            )).subscribers@.len() == 0,
    ensures
        indices_agree(tree, by_id),
{
    assert forall|id: u128| by_id.contains_key(id) implies {
        let record = #[trigger] by_id[id];
        &&& tree.has_node(record.node as int)
        &&& tree.path_of(record.node as int) == path_view(record.path@)
        &&& tree.data_of(record.node as int).subscribers@.contains(id)
    } by {
        let record = by_id[id];
        assert(tree.path_of(record.node as int) == former.path_of(record.node as int));
    }
    assert forall|node: int, i: int|
        tree.has_node(node) && 0 <= i < tree.data_of(node).subscribers@.len() implies {
        let id = #[trigger] tree.data_of(node).subscribers@[i];
        &&& by_id.contains_key(id)
        &&& by_id[id].node == node
    } by {
        if former.has_node(node) {
            assert(tree.path_of(node) == former.path_of(node));
            let id = former.data_of(node).subscribers@[i];
        }
    }
    assert forall|node: int| tree.has_node(node) implies (#[trigger] tree.data_of(
        node,
    )).subscribers@.no_duplicates() by {
        if former.has_node(node) {
            assert(tree.path_of(node) == former.path_of(node));
            assert(former.data_of(node).subscribers@.no_duplicates());
        }
    }
}

/// Data store: the histories of the keys, the subscriptions and the cache of
/// values, as the thread that owns the store keeps them. `C` is what stands
/// for the channel on which a subscriber is told of changes.
pub struct DataStore<T, C> {
    name: String,
    config: DatastoreConfig,
    /// The keys with their histories and the subscriptions by path
    tree: PathTree<StoreNode<T>>,
    /// Mapping of subscription ids to subscriptions
    subscriptions_by_id: HashMap<u128, SubscriptionRecord<C>>,
    /// TLRU cache of values by change id
    value_cache_by_change_id: TLRUCache<u128, Arc<Value<T>>>,
    /// The change identifiers of all entries of all histories
    known_changes: HashSet<u128>,
}

impl<T, C> DataStore<T, C> {
    /// The history of the key at `place`, oldest first.
    pub closed spec fn history_at(&self, place: Seq<Seq<char>>) -> Seq<Arc<Value<T>>> {
        match self.tree.data_at(place) {
            Some(node) => node.history@,
            None => Seq::empty(),
        }
    }

    /// The subscriptions to `place`, in the order in which they came.
    pub closed spec fn subscribers_at(&self, place: Seq<Seq<char>>) -> Seq<u128> {
        match self.tree.data_at(place) {
            Some(node) => node.subscribers@,
            None => Seq::empty(),
        }
    }

    /// Whether a subscription with this identifier exists.
    pub closed spec fn has_subscription(&self, id: u128) -> bool {
        self.subscriptions_by_id@.contains_key(id)
    }

    /// The path that subscription `id` names.
    pub closed spec fn subscription_path(&self, id: u128) -> Seq<Seq<char>> {
        path_view(self.subscriptions_by_id@[id].path@)
    }

    /// The channel of subscription `id`.
    pub closed spec fn subscription_channel(&self, id: u128) -> C {
        self.subscriptions_by_id@[id].notification_channel
    }

    /// The cache of values by change id.
    pub closed spec fn cache(&self) -> CacheView<u128, Arc<Value<T>>> {
        self.value_cache_by_change_id@
    }

    /// The name of the store.
    pub closed spec fn store_name(&self) -> Seq<char> {
        self.name@
    }

    /// Whether the store keeps previous values.
    pub closed spec fn keep_history(&self) -> bool {
        self.config.keep_history
    }

    /// For how many seconds previous values are kept.
    pub closed spec fn max_age(&self) -> Option<u64> {
        self.config.history_max_age
    }

    /// How many previous values are kept.
    pub closed spec fn max_entries(&self) -> Option<u64> {
        self.config.history_max_entries
    }

    /// The store is well formed.
    pub closed spec fn wf(&self) -> bool {
        &&& self.tree.wf()
        &&& self.value_cache_by_change_id.wf()
        &&& histories_ordered(self.tree)
        &&& indices_agree(self.tree, self.subscriptions_by_id@)
        &&& changes_recorded(self.tree, self.known_changes@)
    }

    /// Whether a history of the store holds an entry of change `id`.
    pub closed spec fn has_change(&self, id: u128) -> bool {
        self.known_changes@.contains(id)
    }

    /// What the store keeps of `history` at `now`.
    pub open spec fn kept(&self, history: Seq<Arc<Value<T>>>, now: i64) -> Seq<Arc<Value<T>>> {
        kept_history(history, self.keep_history(), self.max_age(), self.max_entries(), now)
    }

    /// The two stores have the same rules for their histories.
    pub open spec fn same_rules(&self, other: &Self) -> bool {
        &&& self.keep_history() == other.keep_history()
        &&& self.max_age() == other.max_age()
        &&& self.max_entries() == other.max_entries()
    }

    /// The two stores have the same subscriptions.
    pub open spec fn same_subscriptions(&self, other: &Self) -> bool {
        &&& forall|id: u128| #[trigger] self.has_subscription(id) == other.has_subscription(id)
        &&& forall|id: u128|
            self.has_subscription(id) ==> #[trigger] self.subscription_path(id)
                == other.subscription_path(id)
        &&& forall|id: u128|
            self.has_subscription(id) ==> #[trigger] self.subscription_channel(id)
                == other.subscription_channel(id)
        &&& forall|place: Seq<Seq<char>>| #[trigger]
            self.subscribers_at(place) == other.subscribers_at(place)
    }

    /// The time that a value written at `now` gets: `now`, or the time of
    /// the key's newest value where that is later, so that a history is
    /// always in the order of its times.
    pub open spec fn write_time(history: Seq<Arc<Value<T>>>, now: i64) -> i64 {
        stamped(
            if history.len() > 0 {
                Some(history.last().timestamp)
            } else {
                None
            },
            now,
        )
    }

    /// `after` is `before` once `value` was written to `path`: the history
    /// of the path has the value as its newest entry and keeps what the
    /// rules allow, and nothing else changes.
    pub open spec fn is_write(
        before: &Self,
        after: &Self,
        path: Seq<Seq<char>>,
        value: Arc<Value<T>>,
    ) -> bool {
        &&& after.same_rules(before)
        &&& after.same_subscriptions(before)
        &&& forall|place: Seq<Seq<char>>| #[trigger]
            after.history_at(place) == if place == path {
                before.kept(before.history_at(place).push(value), value.timestamp)
            } else {
                before.history_at(place)
            }
    }

    proof fn lemma_same_places(&self, former: &Self)
        requires
            forall|place: Seq<Seq<char>>| #[trigger]
                self.tree.data_at(place) == former.tree.data_at(place),
            self.subscriptions_by_id@ == former.subscriptions_by_id@,
        ensures
            self.same_subscriptions(former),
            forall|place: Seq<Seq<char>>| #[trigger]
                self.history_at(place) == former.history_at(place),
    {
        assert forall|place: Seq<Seq<char>>| #[trigger]
            self.subscribers_at(place) == former.subscribers_at(place) by {
            assert(self.tree.data_at(place) == former.tree.data_at(place));
        }
        assert forall|place: Seq<Seq<char>>| #[trigger]
            self.history_at(place) == former.history_at(place) by {
            assert(self.tree.data_at(place) == former.tree.data_at(place));
        }
    }

    /// Sets up a store that holds nothing.
    pub fn new(name: &str, config: DatastoreConfig) -> (store: Self)
        ensures
            store.wf(),
            store.store_name() == name@,
            store.keep_history() == config.keep_history,
            store.max_age() == config.history_max_age,
            store.max_entries() == config.history_max_entries,
            forall|place: Seq<Seq<char>>| #[trigger] store.history_at(place).len() == 0,
            forall|place: Seq<Seq<char>>| #[trigger] store.subscribers_at(place).len() == 0,
            forall|id: u128| !#[trigger] store.has_subscription(id),
            store.cache().order.len() == 0,
    {
        broadcast use vstd::std_specs::hash::group_hash_axioms;

        let store = DataStore {
            name: String::from_str(name),
            config,
            tree: PathTree::new(StoreNode::blank()),
            subscriptions_by_id: HashMap::new(),
            value_cache_by_change_id: TLRUCache::new(
                Some(ITEM_CACHE_MAX_ITEMS),
                None,
                Some(ITEM_CACHE_MAX_ACCESS_AGE),
            ),
            known_changes: HashSet::new(),
        };
        proof {
            store.tree.lemma_structure();
            assert forall|place: Seq<Seq<char>>|
                #[trigger] store.history_at(place).len() == 0 && store.subscribers_at(place).len()
                    == 0 by {
                if store.tree.has_path(place) {
                    assert(store.tree.id_of(place) == 0);
                }
            }
            assert forall|place: Seq<Seq<char>>| #[trigger]
                store.subscribers_at(place).len() == 0 by {
                assert(store.history_at(place).len() == 0);
            }
        }
        store
    }

    /// The name of the store.
    pub fn name(&self) -> (name: &String)
        ensures
            name@ == self.store_name(),
    {
        &self.name
    }

    /// The value that stands for a key without history.
    fn absent(path: &Vec<String>) -> (value: Arc<Value<T>>)
        ensures
            value.value is None,
            value.path@ == path@,
            value.timestamp == 0,
            value.change_id.value() == 0,
    {
        Arc::new(Value::absent(copy_path(path)))
    }

    /// Gets the current value of `path`: the newest entry of its history.
    /// A key without history has a value that is None, under the reserved
    /// change identifier.
    pub fn get_current(&self, path: &Vec<String>) -> (current: Arc<Value<T>>)
        requires
            self.wf(),
        ensures
            self.history_at(path_view(path@)).len() > 0 ==> current == self.history_at(
                path_view(path@),
            ).last(),
            self.history_at(path_view(path@)).len() == 0 ==> {
                &&& current.value is None
                &&& current.path@ == path@
                &&& current.timestamp == 0
                &&& current.change_id.value() == 0
            },
    {
        match self.tree.find(path) {
            Some(id) => {
                proof {
                    self.tree.lemma_structure();
                }
                let history = &self.tree.data(id).history;
                if history.len() > 0 {
                    share(&history[history.len() - 1])
                } else {
                    Self::absent(path)
                }
            },
            None => Self::absent(path),
        }
    }

    /// Gets the history of `path` in the order of the changes: all of it, or
    /// with a cursor the entries after the change that it names.
    pub fn get_all(&self, path: &Vec<String>, last_change_id: Option<ChangeId>) -> (values: Vec<
        Arc<Value<T>>,
    >)
        requires
            self.wf(),
        ensures
            values@ == after_change(self.history_at(path_view(path@)), last_change_id),
    {
        match self.tree.find(path) {
            Some(id) => {
                proof {
                    self.tree.lemma_structure();
                }
                newer_than(&self.tree.data(id).history, &last_change_id)
            },
            None => {
                let values: Vec<Arc<Value<T>>> = Vec::new();
                proof {
                    let none = Seq::<Arc<Value<T>>>::empty();
                    assert(after_change(none, last_change_id) =~= none);
                }
                values
            },
        }
    }

    /// Writes `value` to `path` under the change identifier given, at the
    /// time `now`: the value, None for a deletion, becomes the newest entry
    /// of the path's history, what the rules no longer keep leaves the
    /// history, the cache takes the value, and the subscriptions to the path
    /// are handed back to be told.
    pub fn set_value(
        &mut self,
        path: Vec<String>,
        value: Option<T>,
        change_id: ChangeId,
        now: i64,
    ) -> (written: Result<Change<T>, WriteError>)
        requires
            old(self).wf(),
        ensures
            final(self).wf(),
            match written {
                Ok(change) => {
                    &&& !old(self).has_change(change_id.value())
                    &&& change.value.value == value
                    &&& change.value.path == path
                    &&& change.value.change_id == change_id
                    &&& change.value.timestamp == Self::write_time(
                        old(self).history_at(path_view(path@)),
                        now,
                    )
                    &&& Self::is_write(old(self), final(self), path_view(path@), change.value)
                    &&& change.subscriptions@ == old(self).subscribers_at(path_view(path@))
                    &&& exists|at: u128|
                        final(self).cache() == (#[trigger] old(self).cache().put(
                            change_id.value(),
                            change.value,
                            at,
                        )).collect(false, at)
                },
                Err(refused) => {
                    &&& refused == WriteError::DuplicateChange
                    &&& old(self).has_change(change_id.value())
                    &&& *final(self) == *old(self)
                },
            },
    {
        broadcast use vstd::std_specs::hash::group_hash_axioms;

        if self.known_changes.contains(&change_id.id) {
            return Err(WriteError::DuplicateChange);
        }
        let ghost wanted = path_view(path@);
        let keep_history = self.config.keep_history;
        let max_age = self.config.history_max_age;
        let max_entries = self.config.history_max_entries;
        let id = self.tree.ensure(&path);
        let ghost grown = *self;
        proof {
            assert forall|place: Seq<Seq<char>>|
                match old(self).tree.data_at(place) {
                    Some(held) => #[trigger] grown.tree.data_at(place) == Some(held),
                    None => grown.tree.data_at(place) matches Some(held) ==> held.is_blank(),
                } by {
                old(self).tree.lemma_grown(&grown.tree, wanted, place);
            }
            grown.tree.lemma_structure();
        }
        let node = self.tree.data_mut(id);
        let ghost former = node.history@;
        let newest = if node.history.len() > 0 {
            Some(node.history[node.history.len() - 1].timestamp)
        } else {
            None
        };
        let timestamp = stamp_after(newest, now);
        let value = Arc::new(Value { value, path, timestamp, change_id });
        node.history.push(share(&value));
        let purged = count_purged(&node.history, keep_history, max_age, max_entries, timestamp);
        forget_front(&mut node.history, purged, &mut self.known_changes);
        let subscriptions = copy_ids(&node.subscribers);
        let _ = self.known_changes.insert(change_id.id);
        let ghost cache_before = self.value_cache_by_change_id@;
        self.value_cache_by_change_id.insert(change_id.id, share(&value));
        proof {
            lemma_kept_history(
                former.push(value),
                keep_history,
                max_age,
                max_entries,
                timestamp,
            );
            assert forall|id: u128| #[trigger]
                self.known_changes@.contains(id) <==> (id == value.change_id.id || (old(
                    self,
                ).known_changes@.contains(id) && none_has(former, purged as int, id))) by {
                if purged <= former.len() {
                    assert(none_has(former.push(value), purged as int, id) <==> none_has(
                        former,
                        purged as int,
                        id,
                    )) by {
                        assert forall|i: int| 0 <= i < purged implies former.push(value)[i]
                            == former[i] by {}
                        if none_has(former.push(value), purged as int, id) {
                            assert forall|i: int| 0 <= i < purged implies (
                            #[trigger] former[i]).change_id.id != id by {
                                assert(former.push(value)[i].change_id.id != id);
                            }
                        }
                        if none_has(former, purged as int, id) {
                            assert forall|i: int| 0 <= i < purged implies (
                            #[trigger] former.push(value)[i]).change_id.id != id by {
                                assert(former[i].change_id.id != id);
                            }
                        }
                    }
                }
            }
            lemma_write_keeps_record(
                old(self).tree,
                grown.tree,
                self.tree,
                old(self).known_changes@,
                self.known_changes@,
                id as int,
                value,
                purged as int,
                wanted,
            );
            let at = choose|at: u128|
                self.value_cache_by_change_id@ == (#[trigger] cache_before.put(
                    change_id.id,
                    value,
                    at,
                )).collect(false, at);
            assert(self.cache() == old(self).cache().put(change_id.value(), value, at).collect(
                false,
                at,
            ));
            assert forall|node: int| old(self).tree.has_node(node) implies {
                &&& #[trigger] self.tree.path_of(node) == old(self).tree.path_of(node)
                &&& self.tree.data_of(node).subscribers == old(self).tree.data_of(
                    node,
                ).subscribers
            } by {
                assert(grown.tree.path_of(node) == old(self).tree.path_of(node));
                assert(grown.tree.data_of(node) == old(self).tree.data_of(node));
                if node != id {
                    assert(self.tree.data_of(node) == grown.tree.data_of(node));
                }
            }
            assert forall|node: int|
                old(self).tree.node_count() <= node && node < self.tree.node_count() implies (
            #[trigger] self.tree.data_of(node)).subscribers@.len() == 0 by {
                assert(grown.tree.data_of(node).is_blank());
                if node != id {
                    assert(self.tree.data_of(node) == grown.tree.data_of(node));
                }
            }
            let pushed = former.push(value);
            assert(in_time_order(pushed)) by {
                assert(in_time_order(former));
            }
            lemma_kept_history(pushed, keep_history, max_age, max_entries, timestamp);
            lemma_indices_kept(old(self).tree, self.tree, self.subscriptions_by_id@);
            assert forall|place: Seq<Seq<char>>| #[trigger]
                self.history_at(place) == if place == wanted {
                    old(self).kept(old(self).history_at(place).push(value), value.timestamp)
                } else {
                    old(self).history_at(place)
                } by {
                self.tree.lemma_one_changed(&grown.tree, id as int, place);
                old(self).tree.lemma_grown(&grown.tree, wanted, place);
            }
            assert forall|place: Seq<Seq<char>>| #[trigger]
                self.subscribers_at(place) == old(self).subscribers_at(place) by {
                self.tree.lemma_one_changed(&grown.tree, id as int, place);
                old(self).tree.lemma_grown(&grown.tree, wanted, place);
            }
            old(self).tree.lemma_grown(&grown.tree, wanted, wanted);
            self.tree.lemma_one_changed(&grown.tree, id as int, wanted);
        }
        Ok(Change { value, subscriptions })
    }

    /// Sets the value of `path`: mints the change identifier and the time
    /// and writes the value. The write is refused where the identifier drawn
    /// is in use.
    pub fn set(&mut self, path: Vec<String>, value: T) -> (written: Result<Change<T>, WriteError>)
        requires
            old(self).wf(),
        ensures
            final(self).wf(),
            match written {
                Ok(change) => {
                    &&& change.value.value == Some(value)
                    &&& change.value.path == path
                    &&& change.value.change_id.value() != 0
                    &&& !old(self).has_change(change.value.change_id.value())
                    &&& exists|now: i64|
                        change.value.timestamp == #[trigger] Self::write_time(
                            old(self).history_at(path_view(path@)),
                            now,
                        )
                    &&& Self::is_write(old(self), final(self), path_view(path@), change.value)
                    &&& change.subscriptions@ == old(self).subscribers_at(path_view(path@))
                    &&& exists|at: u128|
                        final(self).cache() == (#[trigger] old(self).cache().put(
                            change.value.change_id.value(),
                            change.value,
                            at,
                        )).collect(false, at)
                },
                Err(refused) => Self::is_refusal(old(self), final(self), refused),
            },
    {
        let change_id = ChangeId::new();
        let now = utc_now_micros();
        let written = self.set_value(path, Some(value), change_id, now);
        proof {
            if written is Ok {
                assert(written->Ok_0.value.timestamp == Self::write_time(
                    old(self).history_at(path_view(path@)),
                    now,
                ));
            } else {
                assert(change_id.value() != 0 && old(self).has_change(change_id.value()));
            }
        }
        written
    }

    /// Deletes the value of `path`: writes a value that is None.
    pub fn delete(&mut self, path: Vec<String>) -> (written: Result<Change<T>, WriteError>)
        requires
            old(self).wf(),
        ensures
            final(self).wf(),
            match written {
                Ok(change) => {
                    &&& change.value.value is None
                    &&& change.value.path == path
                    &&& change.value.change_id.value() != 0
                    &&& !old(self).has_change(change.value.change_id.value())
                    &&& exists|now: i64|
                        change.value.timestamp == #[trigger] Self::write_time(
                            old(self).history_at(path_view(path@)),
                            now,
                        )
                    &&& Self::is_write(old(self), final(self), path_view(path@), change.value)
                    &&& change.subscriptions@ == old(self).subscribers_at(path_view(path@))
                    &&& exists|at: u128|
                        final(self).cache() == (#[trigger] old(self).cache().put(
                            change.value.change_id.value(),
                            change.value,
                            at,
                        )).collect(false, at)
                },
                Err(refused) => Self::is_refusal(old(self), final(self), refused),
            },
    {
        let change_id = ChangeId::new();
        let now = utc_now_micros();
        let written = self.set_value(path, None, change_id, now);
        proof {
            if written is Ok {
                assert(written->Ok_0.value.timestamp == Self::write_time(
                    old(self).history_at(path_view(path@)),
                    now,
                ));
            } else {
                assert(change_id.value() != 0 && old(self).has_change(change_id.value()));
            }
        }
        written
    }

    /// `after` is `before` once a write under a freshly drawn identifier was
    /// refused: the store is as it was, and it holds a change under the
    /// identifier drawn, which is never the reserved one. So a store that
    /// holds no change under an identifier other than the reserved one
    /// refuses no such write.
    pub open spec fn is_refusal(before: &Self, after: &Self, refused: WriteError) -> bool {
        &&& refused == WriteError::DuplicateChange
        &&& *after == *before
        &&& exists|drawn: u128| drawn != 0 && #[trigger] before.has_change(drawn)
    }

    /// The two stores hold the same histories under the same rules.
    pub open spec fn same_histories(&self, other: &Self) -> bool {
        &&& self.same_rules(other)
        &&& forall|place: Seq<Seq<char>>| #[trigger]
            self.history_at(place) == other.history_at(place)
    }

    /// `after` is `before` once the subscription `id` to `path` was made:
    /// it is the last come at its path, and nothing else changes.
    pub open spec fn is_subscribe(
        before: &Self,
        after: &Self,
        path: Seq<Seq<char>>,
        id: u128,
        channel: C,
    ) -> bool {
        &&& after.same_histories(before)
        &&& after.cache() == before.cache()
        &&& after.has_subscription(id)
        &&& after.subscription_path(id) == path
        &&& after.subscription_channel(id) == channel
        &&& forall|other: u128|
            other != id ==> #[trigger] after.has_subscription(other) == before.has_subscription(
                other,
            )
        &&& forall|other: u128|
            other != id && before.has_subscription(other) ==> #[trigger] after.subscription_path(
                other,
            ) == before.subscription_path(other)
        &&& forall|other: u128|
            other != id && before.has_subscription(other)
                ==> #[trigger] after.subscription_channel(other) == before.subscription_channel(
                other,
            )
        &&& forall|place: Seq<Seq<char>>| #[trigger]
            after.subscribers_at(place) == if place == path {
                before.subscribers_at(place).push(id)
            } else {
                before.subscribers_at(place)
            }
    }

    /// `after` is `before` once the subscription `id` was cancelled: it is
    /// gone from both indices, and nothing else changes.
    pub open spec fn is_unsubscribe(before: &Self, after: &Self, id: u128) -> bool {
        &&& after.same_histories(before)
        &&& after.cache() == before.cache()
        &&& !after.has_subscription(id)
        &&& forall|other: u128|
            other != id ==> #[trigger] after.has_subscription(other) == before.has_subscription(
                other,
            )
        &&& forall|other: u128|
            other != id && before.has_subscription(other) ==> #[trigger] after.subscription_path(
                other,
            ) == before.subscription_path(other)
        &&& forall|other: u128|
            other != id && before.has_subscription(other)
                ==> #[trigger] after.subscription_channel(other) == before.subscription_channel(
                other,
            )
        &&& forall|place: Seq<Seq<char>>| #[trigger]
            after.subscribers_at(place) == without_key(before.subscribers_at(place), id)
    }

    /// The two indices of the subscriptions agree: a subscription is listed
    /// at a path exactly if it exists and names that path, and no list holds
    /// a subscription twice.
    pub proof fn lemma_indices(&self)
        requires
            self.wf(),
        ensures
            forall|place: Seq<Seq<char>>, id: u128| #[trigger]
                self.subscribers_at(place).contains(id) <==> (self.has_subscription(id)
                    && self.subscription_path(id) == place),
            forall|place: Seq<Seq<char>>| #[trigger] self.subscribers_at(place).no_duplicates(),
    {
        self.tree.lemma_structure();
        assert forall|place: Seq<Seq<char>>, id: u128| #[trigger]
            self.subscribers_at(place).contains(id) <==> (self.has_subscription(id)
                && self.subscription_path(id) == place) by {
            if self.subscribers_at(place).contains(id) {
                let node = self.tree.id_of(place);
                let list = self.tree.data_of(node).subscribers@;
                let i = choose|i: int| 0 <= i < list.len() && list[i] == id;
                assert(self.tree.data_of(node).subscribers@[i] == id);
            }
            if self.has_subscription(id) && self.subscription_path(id) == place {
                let record = self.subscriptions_by_id@[id];
                assert(self.tree.has_node(record.node as int));
            }
        }
        assert forall|place: Seq<Seq<char>>| #[trigger]
            self.subscribers_at(place).no_duplicates() by {
            if self.tree.has_path(place) {
                let node = self.tree.id_of(place);
                assert(self.tree.data_of(node).subscribers@.no_duplicates());
            }
        }
    }

    /// What the store holds of a change is what its histories hold: a
    /// change is known exactly if some history has an entry of it.
    pub proof fn lemma_changes_are_entries(&self, id: u128)
        requires
            self.wf(),
        ensures
            self.has_change(id) <==> exists|place: Seq<Seq<char>>, i: int|
                0 <= i < self.history_at(place).len() && (#[trigger] self.history_at(
                    place,
                )[i]).change_id.value() == id,
    {
        self.tree.lemma_structure();
        if self.has_change(id) {
            let (node, i) = choose|node: int, i: int|
                is_entry(self.tree, node, i) && #[trigger] entry_id(self.tree, node, i) == id;
            let place = self.tree.path_of(node);
            assert(self.history_at(place)[i].change_id.value() == id);
        }
        if exists|place: Seq<Seq<char>>, i: int|
            0 <= i < self.history_at(place).len() && (#[trigger] self.history_at(
                place,
            )[i]).change_id.value() == id {
            let (place, i) = choose|place: Seq<Seq<char>>, i: int|
                0 <= i < self.history_at(place).len() && (#[trigger] self.history_at(
                    place,
                )[i]).change_id.value() == id;
            let node = self.tree.id_of(place);
            assert(is_entry(self.tree, node, i));
            assert(entry_id(self.tree, node, i) == id);
        }
    }

    /// Change identifiers are unique within a store: two entries of the
    /// same change are one entry.
    pub proof fn lemma_change_ids_unique(
        &self,
        place: Seq<Seq<char>>,
        i: int,
        other_place: Seq<Seq<char>>,
        j: int,
    )
        requires
            self.wf(),
            0 <= i < self.history_at(place).len(),
            0 <= j < self.history_at(other_place).len(),
            self.history_at(place)[i].change_id.value() == self.history_at(
                other_place,
            )[j].change_id.value(),
        ensures
            place == other_place,
            i == j,
    {
        self.tree.lemma_structure();
        let node = self.tree.id_of(place);
        let other = self.tree.id_of(other_place);
        assert(is_entry(self.tree, node, i) && is_entry(self.tree, other, j));
        assert(entry_id(self.tree, node, i) == entry_id(self.tree, other, j));
    }

    /// A reader who names entry `at` of a history as seen is owed exactly
    /// the entries behind it: every change occurs once, so the cursor finds
    /// its entry and no other.
    pub proof fn lemma_read_after(&self, place: Seq<Seq<char>>, at: int)
        requires
            self.wf(),
            0 <= at < self.history_at(place).len(),
        ensures
            after_change(self.history_at(place), Some(self.history_at(place)[at].change_id))
                == self.history_at(place).skip(at + 1),
    {
        let history = self.history_at(place);
        assert forall|i: int| at < i < history.len() implies (#[trigger] history[i]).ident()
            != history[at].ident() by {
            if history[i].ident() == history[at].ident() {
                self.lemma_change_ids_unique(place, i, place, at);
            }
        }
        lemma_cursor_at(history, at);
    }

    /// The values that the writes `steps` bring to `place`, in the order of
    /// the writes. A step is a path and the value written to it.
    pub open spec fn written_to(
        steps: Seq<(Seq<Seq<char>>, Arc<Value<T>>)>,
        place: Seq<Seq<char>>,
    ) -> Seq<Arc<Value<T>>>
        decreases steps.len(),
    {
        if steps.len() == 0 {
            Seq::empty()
        } else {
            let earlier = Self::written_to(steps.drop_last(), place);
            if steps.last().0 == place {
                earlier.push(steps.last().1)
            } else {
                earlier
            }
        }
    }

    /// `stores` are the states of a store before, between and after the
    /// writes `steps`: each state follows from the one before it by the
    /// write of that step.
    pub open spec fn is_run(stores: Seq<Self>, steps: Seq<(Seq<Seq<char>>, Arc<Value<T>>)>) -> bool {
        &&& stores.len() == steps.len() + 1
        &&& forall|k: int|
            0 <= k < steps.len() ==> Self::is_write(
                &stores[k],
                &stores[k + 1],
                (#[trigger] steps[k]).0,
                steps[k].1,
            )
    }

    /// `tail` is what is left of `whole` once some of its oldest entries
    /// are gone.
    pub open spec fn is_end_of(tail: Seq<Arc<Value<T>>>, whole: Seq<Arc<Value<T>>>) -> bool {
        exists|dropped: int| 0 <= dropped <= whole.len() && tail == #[trigger] whole.skip(dropped)
    }

    /// Insertion order. After any run of writes the history of a place is
    /// what it was with the values written to that place behind it, in the
    /// order of the writes, less the oldest entries that the rules let go.
    /// A store that keeps its history without bounds has let none go.
    pub proof fn lemma_run_of_writes(
        stores: Seq<Self>,
        steps: Seq<(Seq<Seq<char>>, Arc<Value<T>>)>,
        place: Seq<Seq<char>>,
    )
        requires
            Self::is_run(stores, steps),
        ensures
            stores.last().same_rules(&stores[0]),
            Self::is_end_of(
                stores.last().history_at(place),
                stores[0].history_at(place) + Self::written_to(steps, place),
            ),
            stores[0].keep_history() && stores[0].max_age() is None && stores[0].max_entries()
                is None ==> stores.last().history_at(place) == stores[0].history_at(place)
                + Self::written_to(steps, place),
        decreases steps.len(),
    {
        let first = stores[0].history_at(place);
        if steps.len() == 0 {
            assert(first + Self::written_to(steps, place) =~= first);
            assert(first == (first + Self::written_to(steps, place)).skip(0));
        } else {
            let n = steps.len() as int;
            let earlier = stores.drop_last();
            let before = steps.drop_last();
            assert forall|k: int| 0 <= k < before.len() implies Self::is_write(
                &earlier[k],
                &earlier[k + 1],
                (#[trigger] before[k]).0,
                before[k].1,
            ) by {
                assert(steps[k] == before[k]);
            }
            Self::lemma_run_of_writes(earlier, before, place);
            let was = stores[n - 1];
            let now = stores[n];
            assert(earlier.last() == was);
            assert(earlier[0] == stores[0]);
            let step = steps[n - 1];
            assert(Self::is_write(&was, &now, step.0, step.1));
            let whole_before = first + Self::written_to(before, place);
            let whole = first + Self::written_to(steps, place);
            let dropped = choose|dropped: int|
                0 <= dropped <= whole_before.len() && was.history_at(place)
                    == #[trigger] whole_before.skip(dropped);
            if step.0 == place {
                let pushed = was.history_at(place).push(step.1);
                let purged = crate::helpers::retention::purge_count(
                    pushed,
                    was.keep_history(),
                    was.max_age(),
                    was.max_entries(),
                    step.1.timestamp,
                );
                lemma_kept_history(
                    pushed,
                    was.keep_history(),
                    was.max_age(),
                    was.max_entries(),
                    step.1.timestamp,
                );
                assert(whole =~= whole_before.push(step.1));
                assert(pushed =~= whole.skip(dropped));
                assert(now.history_at(place) == pushed.skip(purged));
                assert(pushed.skip(purged) =~= whole.skip(dropped + purged));
                if stores[0].keep_history() && stores[0].max_age() is None
                    && stores[0].max_entries() is None {
                    assert(purged == 0);
                    assert(pushed.skip(0) =~= pushed);
                    assert(was.history_at(place) == whole_before);
                }
            } else {
                assert(whole =~= whole_before);
                assert(now.history_at(place) == whole.skip(dropped));
            }
        }
    }

    /// Whether a history of the store holds an entry of change `id`.
    pub fn holds_change(&self, id: ChangeId) -> (held: bool)
        ensures
            held == self.has_change(id.value()),
    {
        broadcast use vstd::std_specs::hash::group_hash_axioms;

        self.known_changes.contains(&id.id)
    }

    /// The current value after a write is the value written: what was set
    /// is what is read, the later of two writes wins, and after a deletion
    /// the value is None.
    pub proof fn lemma_current_after_write(
        before: &Self,
        after: &Self,
        path: Seq<Seq<char>>,
        value: Arc<Value<T>>,
    )
        requires
            Self::is_write(before, after, path, value),
        ensures
            after.history_at(path).len() > 0,
            after.history_at(path).last() == value,
    {
        lemma_kept_history(
            before.history_at(path).push(value),
            before.keep_history(),
            before.max_age(),
            before.max_entries(),
            value.timestamp,
        );
        assert(after.history_at(path) == before.kept(
            before.history_at(path).push(value),
            value.timestamp,
        ));
    }

    /// A write appends: the history after it is an end of the history
    /// before it with the value added, so the changes stay in the order in
    /// which they were made.
    pub proof fn lemma_write_appends(
        before: &Self,
        after: &Self,
        path: Seq<Seq<char>>,
        value: Arc<Value<T>>,
    )
        requires
            Self::is_write(before, after, path, value),
        ensures
            exists|dropped: int|
                0 <= dropped <= before.history_at(path).len() && after.history_at(path)
                    == #[trigger] before.history_at(path).push(value).skip(dropped),
    {
        let pushed = before.history_at(path).push(value);
        lemma_kept_history(
            pushed,
            before.keep_history(),
            before.max_age(),
            before.max_entries(),
            value.timestamp,
        );
        let dropped = crate::helpers::retention::purge_count(
            pushed,
            before.keep_history(),
            before.max_age(),
            before.max_entries(),
            value.timestamp,
        );
        assert(after.history_at(path) == pushed.skip(dropped));
    }

    /// History monotonicity. The entries of every history are in the order
    /// of their times.
    pub proof fn lemma_history_in_time_order(&self, place: Seq<Seq<char>>)
        requires
            self.wf(),
        ensures
            in_time_order(self.history_at(place)),
    {
        if self.tree.has_path(place) {
            let node = self.tree.id_of(place);
            assert(in_time_order(self.tree.data_of(node).history@));
        }
    }

    /// The subscriptions to `path`, in the order in which they came.
    pub fn subscriptions_to(&self, path: &Vec<String>) -> (ids: Vec<u128>)
        requires
            self.wf(),
        ensures
            ids@ == self.subscribers_at(path_view(path@)),
    {
        match self.tree.find(path) {
            Some(node) => {
                proof {
                    self.tree.lemma_structure();
                }
                copy_ids(&self.tree.data(node).subscribers)
            },
            None => Vec::new(),
        }
    }

    /// The channel of subscription `id`.
    pub fn channel(&self, id: u128) -> (channel: Option<&C>)
        ensures
            match channel {
                Some(channel) => self.has_subscription(id) && *channel
                    == self.subscription_channel(id),
                None => !self.has_subscription(id),
            },
    {
        broadcast use vstd::std_specs::hash::group_hash_axioms;

        match self.subscriptions_by_id.get(&id) {
            Some(record) => Some(&record.notification_channel),
            None => None,
        }
    }

    /// Records a subscription to `path` under the identifier given. An
    /// identifier that is in use is refused, and the channel handed back.
    pub fn subscribe_with(&mut self, path: Vec<String>, notification_channel: C, id: u128) -> (made:
        Result<u128, C>)
        requires
            old(self).wf(),
        ensures
            final(self).wf(),
            match made {
                Ok(made_id) => {
                    &&& made_id == id
                    &&& !old(self).has_subscription(id)
                    &&& Self::is_subscribe(
                        old(self),
                        final(self),
                        path_view(path@),
                        id,
                        notification_channel,
                    )
                },
                Err(unused) => {
                    &&& old(self).has_subscription(id)
                    &&& unused == notification_channel
                    &&& *final(self) == *old(self)
                },
            },
    {
        broadcast use vstd::std_specs::hash::group_hash_axioms;

        if self.subscriptions_by_id.contains_key(&id) {
            return Err(notification_channel);
        }
        let ghost wanted = path_view(path@);
        let node = self.tree.ensure(&path);
        let ghost grown = *self;
        let list = self.tree.data_mut(node);
        let ghost listed = list.subscribers@;
        list.subscribers.push(id);
        let ghost pushed = *self;
        let _ = self.subscriptions_by_id.insert(
            id,
            SubscriptionRecord { path, node, notification_channel },
        );
        proof {
            let by_id = old(self).subscriptions_by_id@;
            grown.tree.lemma_structure();
            assert forall|at: int| old(self).tree.has_node(at) implies {
                &&& #[trigger] grown.tree.path_of(at) == old(self).tree.path_of(at)
                &&& grown.tree.data_of(at).subscribers == old(self).tree.data_of(at).subscribers
            } by {
                assert(grown.tree.path_of(at) == old(self).tree.path_of(at));
                assert(grown.tree.data_of(at) == old(self).tree.data_of(at));
            }
            assert forall|at: int|
                old(self).tree.node_count() <= at && at < grown.tree.node_count() implies (
            #[trigger] grown.tree.data_of(at)).subscribers@.len() == 0 by {
                assert(grown.tree.data_of(at).is_blank());
            }
            lemma_indices_kept(old(self).tree, grown.tree, by_id);
            // the identifier is new to the list
            assert forall|i: int| 0 <= i < listed.len() implies listed[i] != id by {
                assert(grown.tree.data_of(node as int).subscribers@[i] == listed[i]);
            }
            let tree = self.tree;
            let now_by_id = self.subscriptions_by_id@;
            assert forall|other: u128| now_by_id.contains_key(other) implies {
                let record = #[trigger] now_by_id[other];
                &&& tree.has_node(record.node as int)
                &&& tree.path_of(record.node as int) == path_view(record.path@)
                &&& tree.data_of(record.node as int).subscribers@.contains(other)
            } by {
                if other == id {
                    assert(tree.data_of(node as int).subscribers@[listed.len() as int] == id);
                } else {
                    let record = by_id[other];
                    assert(tree.path_of(record.node as int) == grown.tree.path_of(
                        record.node as int,
                    ));
                    let former = grown.tree.data_of(record.node as int).subscribers@;
                    let i = choose|i: int| 0 <= i < former.len() && former[i] == other;
                    if record.node == node {
                        assert(tree.data_of(node as int).subscribers@[i] == other);
                    } else {
                        assert(tree.data_of(record.node as int) == grown.tree.data_of(
                            record.node as int,
                        ));
                    }
                }
            }
            assert forall|at: int, i: int|
                tree.has_node(at) && 0 <= i < tree.data_of(at).subscribers@.len() implies {
                let other = #[trigger] tree.data_of(at).subscribers@[i];
                &&& now_by_id.contains_key(other)
                &&& now_by_id[other].node == at
            } by {
                if at == node {
                    if i < listed.len() {
                        assert(grown.tree.data_of(at).subscribers@[i] == listed[i]);
                    }
                } else {
                    assert(tree.data_of(at) == grown.tree.data_of(at));
                    let other = grown.tree.data_of(at).subscribers@[i];
                }
            }
            assert forall|at: int| tree.has_node(at) implies (#[trigger] tree.data_of(
                at,
            )).subscribers@.no_duplicates() by {
                if at == node {
                    assert(grown.tree.data_of(at).subscribers@.no_duplicates());
                } else {
                    assert(tree.data_of(at) == grown.tree.data_of(at));
                    assert(grown.tree.data_of(at).subscribers@.no_duplicates());
                }
            }
            assert(histories_ordered(tree)) by {
                assert forall|at: int| tree.has_node(at) implies in_time_order(
                    (#[trigger] tree.data_of(at)).history@,
                ) by {
                    if at != node {
                        assert(tree.data_of(at) == grown.tree.data_of(at));
                    }
                    if old(self).tree.has_node(at) {
                        assert(grown.tree.path_of(at) == old(self).tree.path_of(at));
                        assert(grown.tree.data_of(at) == old(self).tree.data_of(at));
                        assert(in_time_order(old(self).tree.data_of(at).history@));
                    } else {
                        assert(grown.tree.data_of(at).is_blank());
                    }
                }
            }
            assert forall|at: int| old(self).tree.has_node(at) implies (#[trigger] tree.data_of(
                at,
            )).history == old(self).tree.data_of(at).history by {
                assert(grown.tree.path_of(at) == old(self).tree.path_of(at));
                assert(grown.tree.data_of(at) == old(self).tree.data_of(at));
                if at != node {
                    assert(tree.data_of(at) == grown.tree.data_of(at));
                }
            }
            assert forall|at: int|
                old(self).tree.node_count() <= at && at < tree.node_count() implies (
            #[trigger] tree.data_of(at)).history@.len() == 0 by {
                assert(grown.tree.data_of(at).is_blank());
                if at != node {
                    assert(tree.data_of(at) == grown.tree.data_of(at));
                }
            }
            lemma_record_kept(old(self).tree, tree, self.known_changes@);
            assert forall|place: Seq<Seq<char>>| #[trigger]
                self.history_at(place) == old(self).history_at(place) by {
                tree.lemma_one_changed(&grown.tree, node as int, place);
                old(self).tree.lemma_grown(&grown.tree, wanted, place);
            }
            assert forall|place: Seq<Seq<char>>| #[trigger]
                self.subscribers_at(place) == if place == wanted {
                    old(self).subscribers_at(place).push(id)
                } else {
                    old(self).subscribers_at(place)
                } by {
                tree.lemma_one_changed(&grown.tree, node as int, place);
                old(self).tree.lemma_grown(&grown.tree, wanted, place);
            }
        }
        Ok(id)
    }

    /// Records a subscription to `path` under a fresh identifier. The
    /// subscription is refused, and the channel handed back, only where the
    /// identifier drawn, which is never zero, names a subscription already;
    /// a store without subscriptions refuses none.
    pub fn subscribe(&mut self, path: Vec<String>, notification_channel: C) -> (made: Result<
        u128,
        C,
    >)
        requires
            old(self).wf(),
        ensures
            final(self).wf(),
            match made {
                Ok(id) => {
                    &&& !old(self).has_subscription(id)
                    &&& Self::is_subscribe(
                        old(self),
                        final(self),
                        path_view(path@),
                        id,
                        notification_channel,
                    )
                },
                Err(unused) => {
                    &&& unused == notification_channel
                    &&& *final(self) == *old(self)
                    &&& exists|drawn: u128|
                        drawn != 0 && #[trigger] old(self).has_subscription(drawn)
                },
            },
    {
        let id = random_uuid_bits();
        assert(id != 0) by (bit_vector)
            requires
                id & 0xF000_0000_0000_0000_0000 == 0x4000_0000_0000_0000_0000,
        ;
        let made = self.subscribe_with(path, notification_channel, id);
        proof {
            if made is Err {
                assert(old(self).has_subscription(id));
            }
        }
        made
    }

    /// Cancels the subscription `id` and hands back its channel. An
    /// identifier that names no subscription changes nothing.
    pub fn unsubscribe(&mut self, id: u128) -> (channel: Option<C>)
        requires
            old(self).wf(),
        ensures
            final(self).wf(),
            match channel {
                Some(channel) => {
                    &&& old(self).has_subscription(id)
                    &&& channel == old(self).subscription_channel(id)
                    &&& Self::is_unsubscribe(old(self), final(self), id)
                },
                None => !old(self).has_subscription(id) && *final(self) == *old(self),
            },
    {
        broadcast use vstd::std_specs::hash::group_hash_axioms;

        let ghost by_id = self.subscriptions_by_id@;
        if !self.subscriptions_by_id.contains_key(&id) {
            return None;
        }
        let record = self.subscriptions_by_id.remove(&id).unwrap();
        let node = record.node;
        let ghost before = *self;
        let ghost home = self.tree.path_of(node as int);
        let list = self.tree.data_mut(node);
        let ghost listed = list.subscribers@;
        let mut at: usize = 0;
        proof {
            assert(before.tree.data_of(node as int).subscribers@.contains(id));
        }
        while at < list.subscribers.len()
            invariant_except_break
                list.subscribers@ == listed,
                at <= listed.len(),
                listed.contains(id),
                forall|i: int| 0 <= i < at ==> listed[i] != id,
            ensures
                list.subscribers@ == listed,
                at < listed.len(),
                listed[at as int] == id,
            decreases listed.len() - at,
        {
            if list.subscribers[at] == id {
                break ;
            }
            at = at + 1;
        }
        let _ = list.subscribers.remove(at);
        proof {
            let tree = self.tree;
            let now_by_id = self.subscriptions_by_id@;
            before.tree.lemma_structure();
            assert(listed.no_duplicates()) by {
                assert(before.tree.data_of(node as int).subscribers@.no_duplicates());
            }
            assert(without_key(listed, id) == listed.remove(at as int));
            let shorter = listed.remove(at as int);
            assert forall|x: u128| shorter.contains(x) <==> (listed.contains(x) && x != id) by {
                if shorter.contains(x) {
                    let i = choose|i: int| 0 <= i < shorter.len() && shorter[i] == x;
                    let j = if i < at { i } else { i + 1 };
                    assert(listed[j] == x);
                }
                if listed.contains(x) && x != id {
                    let j = choose|j: int| 0 <= j < listed.len() && listed[j] == x;
                    let i = if j < at { j } else { j - 1 };
                    assert(shorter[i] == x);
                }
            }
            assert(shorter.no_duplicates()) by {
                assert forall|i: int, j: int|
                    0 <= i < shorter.len() && 0 <= j < shorter.len() && i != j implies shorter[i]
                    != shorter[j] by {
                    let a = if i < at { i } else { i + 1 };
                    let b = if j < at { j } else { j + 1 };
                    assert(shorter[i] == listed[a] && shorter[j] == listed[b]);
                }
            }
            assert forall|other: u128| now_by_id.contains_key(other) implies {
                let record = #[trigger] now_by_id[other];
                &&& tree.has_node(record.node as int)
                &&& tree.path_of(record.node as int) == path_view(record.path@)
                &&& tree.data_of(record.node as int).subscribers@.contains(other)
            } by {
                let theirs = by_id[other];
                assert(tree.path_of(theirs.node as int) == before.tree.path_of(
                    theirs.node as int,
                ));
                if theirs.node != node {
                    assert(tree.data_of(theirs.node as int) == before.tree.data_of(
                        theirs.node as int,
                    ));
                }
            }
            assert forall|n: int, i: int|
                tree.has_node(n) && 0 <= i < tree.data_of(n).subscribers@.len() implies {
                let other = #[trigger] tree.data_of(n).subscribers@[i];
                &&& now_by_id.contains_key(other)
                &&& now_by_id[other].node == n
            } by {
                if n == node {
                    let j = if i < at { i } else { i + 1 };
                    assert(shorter[i] == listed[j]);
                    assert(before.tree.data_of(n).subscribers@[j] == listed[j]);
                } else {
                    assert(tree.data_of(n) == before.tree.data_of(n));
                    let other = before.tree.data_of(n).subscribers@[i];
                    assert(by_id[other].node == n);
                }
            }
            assert forall|n: int| tree.has_node(n) implies (#[trigger] tree.data_of(
                n,
            )).subscribers@.no_duplicates() by {
                if n != node {
                    assert(tree.data_of(n) == before.tree.data_of(n));
                    assert(before.tree.data_of(n).subscribers@.no_duplicates());
                }
            }
            assert(histories_ordered(tree)) by {
                assert forall|n: int| tree.has_node(n) implies in_time_order(
                    (#[trigger] tree.data_of(n)).history@,
                ) by {
                    if n != node {
                        assert(tree.data_of(n) == before.tree.data_of(n));
                    }
                    assert(in_time_order(before.tree.data_of(n).history@));
                }
            }
            assert forall|n: int| before.tree.has_node(n) implies (#[trigger] tree.data_of(
                n,
            )).history == before.tree.data_of(n).history by {
                if n != node {
                    assert(tree.data_of(n) == before.tree.data_of(n));
                }
            }
            lemma_record_kept(before.tree, tree, self.known_changes@);
            assert forall|place: Seq<Seq<char>>| #[trigger]
                self.history_at(place) == old(self).history_at(place) by {
                tree.lemma_one_changed(&before.tree, node as int, place);
            }
            assert forall|place: Seq<Seq<char>>| #[trigger]
                self.subscribers_at(place) == without_key(old(self).subscribers_at(place), id) by {
                tree.lemma_one_changed(&before.tree, node as int, place);
                if place != home {
                    let theirs = old(self).subscribers_at(place);
                    if theirs.contains(id) {
                        let there = before.tree.id_of(place);
                        let i = choose|i: int| 0 <= i < theirs.len() && theirs[i] == id;
                        assert(before.tree.data_of(there).subscribers@[i] == id);
                    }
                }
            }
        }
        Some(record.notification_channel)
    }

    /// Looks a value up in the cache by its change. A value that is found
    /// becomes the cache's newest.
    pub fn cached(&mut self, change_id: ChangeId) -> (found: Option<Arc<Value<T>>>)
        requires
            old(self).wf(),
        ensures
            final(self).wf(),
            final(self).same_histories(old(self)),
            final(self).same_subscriptions(old(self)),
            exists|at: u128|
                {
                    &&& final(self).cache() == #[trigger] old(self).cache().after_get(
                        change_id.value(),
                        at,
                    )
                    &&& found == old(self).cache().lookup(change_id.value(), at)
                },
    {
        let ghost cache_before = self.value_cache_by_change_id@;
        let found = self.value_cache_by_change_id.get(&change_id.id);
        proof {
            let at = choose|at: u128|
                {
                    &&& self.value_cache_by_change_id@ == #[trigger] cache_before.after_get(
                        change_id.id,
                        at,
                    )
                    &&& match found {
                        Some(value) => cache_before.lookup(change_id.id, at) == Some(*value),
                        None => cache_before.lookup(change_id.id, at) is None,
                    }
                };
            assert(self.cache() == old(self).cache().after_get(change_id.value(), at));
            self.lemma_same_places(old(self));
        }
        match found {
            Some(value) => Some(share(&*value)),
            None => None,
        }
    }

    /// Looks for the value of a row of a database in the cache, and says
    /// what is to be done where the cache does not hold it.
    pub fn look_up(&mut self, meta: &DatastoreValueMeta) -> (step: Lookup<T>)
        requires
            old(self).wf(),
        ensures
            final(self).wf(),
            final(self).same_histories(old(self)),
            final(self).same_subscriptions(old(self)),
            exists|at: u128|
                {
                    &&& final(self).cache() == #[trigger] old(self).cache().after_get(
                        meta.change_id,
                        at,
                    )
                    &&& match step {
                        Lookup::Cached(value) => old(self).cache().lookup(meta.change_id, at)
                            == Some(value),
                        Lookup::Fetch(change_id) => change_id.value() == meta.change_id && old(
                            self,
                        ).cache().lookup(meta.change_id, at) is None,
                    }
                },
    {
        let change_id = ChangeId::from_u128(meta.change_id);
        match self.cached(change_id) {
            Some(value) => Lookup::Cached(value),
            None => Lookup::Fetch(change_id),
        }
    }

    /// Takes the payload that was fetched for a row of a database: makes the
    /// row's value of it and puts that into the cache.
    pub fn fetched(&mut self, path: Vec<String>, meta: &DatastoreValueMeta, value: Option<T>) -> (made:
        Arc<Value<T>>)
        requires
            old(self).wf(),
        ensures
            final(self).wf(),
            final(self).same_histories(old(self)),
            final(self).same_subscriptions(old(self)),
            made.value == value,
            made.path == path,
            made.timestamp == meta.timestamp,
            made.change_id.value() == meta.change_id,
            exists|at: u128|
                final(self).cache() == (#[trigger] old(self).cache().put(
                    meta.change_id,
                    made,
                    at,
                )).collect(false, at),
    {
        let made = Arc::new(Value::of_row(path, meta, value));
        self.remember(share(&made));
        made
    }

    /// Drops from the cache the values that nobody asked for in a long
    /// time.
    pub fn collect_cache(&mut self)
        requires
            old(self).wf(),
        ensures
            final(self).wf(),
            final(self).same_histories(old(self)),
            final(self).same_subscriptions(old(self)),
            exists|at: u128| final(self).cache() == #[trigger] old(self).cache().collect(true, at),
    {
        let ghost cache_before = self.value_cache_by_change_id@;
        self.value_cache_by_change_id.gc(true, None);
        proof {
            let at = choose|at: u128|
                self.value_cache_by_change_id@ == #[trigger] cache_before.collect(true, at);
            assert(self.cache() == old(self).cache().collect(true, at));
            self.lemma_same_places(old(self));
        }
    }

    /// Puts a value into the cache under its change.
    pub fn remember(&mut self, value: Arc<Value<T>>)
        requires
            old(self).wf(),
        ensures
            final(self).wf(),
            final(self).same_histories(old(self)),
            final(self).same_subscriptions(old(self)),
            exists|at: u128|
                final(self).cache() == (#[trigger] old(self).cache().put(
                    value.change_id.value(),
                    value,
                    at,
                )).collect(false, at),
    {
        let ghost cache_before = self.value_cache_by_change_id@;
        let ghost key = value.change_id.id;
        self.value_cache_by_change_id.insert(value.change_id.id, value);
        proof {
            let at = choose|at: u128|
                self.value_cache_by_change_id@ == (#[trigger] cache_before.put(key, value, at)).collect(
                    false,
                    at,
                );
            assert(self.cache() == old(self).cache().put(value.change_id.value(), value, at).collect(
                false,
                at,
            ));
            self.lemma_same_places(old(self));
        }
    }

    /// Whether `place` or a key below it has a value.
    pub open spec fn has_live_below(&self, place: Seq<Seq<char>>) -> bool {
        exists|deeper: Seq<Seq<char>>|
            place.is_prefix_of(deeper) && is_live(#[trigger] self.history_at(deeper))
    }

    /// Whether node `at` has a value.
    fn node_is_live(&self, at: usize) -> (live: bool)
        requires
            self.wf(),
            self.tree.has_node(at as int),
        ensures
            live == is_live(self.history_at(self.tree.path_of(at as int))),
    {
        proof {
            self.tree.lemma_structure();
        }
        let history = &self.tree.data(at).history;
        history.len() > 0 && history[history.len() - 1].value.is_some()
    }

    /// Whether node `top` or a node below it has a value.
    fn subtree_is_live(&self, top: usize) -> (live: bool)
        requires
            self.wf(),
            self.tree.has_node(top as int),
        ensures
            live == self.has_live_below(self.tree.path_of(top as int)),
    {
        let ghost place = self.tree.path_of(top as int);
        let mut at: usize = 0;
        while at < self.tree.len()
            invariant
                self.wf(),
                self.tree.has_node(top as int),
                place == self.tree.path_of(top as int),
                at <= self.tree.node_count(),
                forall|node: int|
                    0 <= node < at ==> !(place.is_prefix_of(#[trigger] self.tree.path_of(node))
                        && is_live(self.history_at(self.tree.path_of(node)))),
            decreases self.tree.node_count() - at,
        {
            if self.node_is_live(at) && self.tree.is_under(at, top) {
                proof {
                    let deeper = self.tree.path_of(at as int);
                    assert(place.is_prefix_of(deeper) && is_live(self.history_at(deeper)));
                }
                return true;
            }
            at = at + 1;
        }
        proof {
            self.tree.lemma_structure();
            if self.has_live_below(place) {
                let deeper = choose|deeper: Seq<Seq<char>>|
                    place.is_prefix_of(deeper) && is_live(#[trigger] self.history_at(deeper));
                assert(self.tree.has_path(deeper));
                let node = self.tree.id_of(deeper);
                assert(self.tree.path_of(node) == deeper);
            }
        }
        false
    }

    /// Lists the keys directly below `path` that have a value or lie above
    /// a key that has one. Their order is unspecified.
    pub fn list(&self, path: &Vec<String>) -> (keys: Vec<String>)
        requires
            self.wf(),
        ensures
            path_view(keys@).no_duplicates(),
            forall|key: Seq<char>|
                path_view(keys@).contains(key) <==> self.has_live_below(
                    path_view(path@).push(key),
                ),
    {
        let ghost here = path_view(path@);
        let mut keys: Vec<String> = Vec::new();
        let id = match self.tree.find(path) {
            Some(id) => id,
            None => {
                proof {
                    self.tree.lemma_structure();
                    assert forall|key: Seq<char>| !self.has_live_below(here.push(key)) by {
                        if self.has_live_below(here.push(key)) {
                            let deeper = choose|deeper: Seq<Seq<char>>|
                                here.push(key).is_prefix_of(deeper) && is_live(
                                    #[trigger] self.history_at(deeper),
                                );
                            assert(self.tree.has_path(deeper));
                            assert(deeper.take(here.len() as int) =~= here);
                            self.tree.lemma_missing_prefix(deeper, here.len() as int);
                        }
                    }
                }
                return keys;
            },
        };
        let children = self.tree.child_ids(id);
        let ghost picked: Seq<int> = Seq::empty();
        let mut x: usize = 0;
        proof {
            self.tree.lemma_children(id as int);
            self.tree.lemma_structure();
        }
        while x < children.len()
            invariant
                self.wf(),
                self.tree.has_node(id as int),
                here == self.tree.path_of(id as int),
                children@ == self.tree.children_of(id as int),
                x <= children@.len(),
                keys@.len() == picked.len(),
                forall|i: int|
                    0 <= i < picked.len() ==> {
                        &&& 0 <= #[trigger] picked[i] < x
                        &&& self.tree.path_of(children@[picked[i]] as int) == here.push(keys@[i]@)
                        &&& self.has_live_below(here.push(keys@[i]@))
                    },
                forall|i: int, j: int| 0 <= i < j < picked.len() ==> picked[i] < picked[j],
                forall|y: int|
                    0 <= y < x && self.has_live_below(
                        self.tree.path_of(#[trigger] children@[y] as int),
                    ) ==> picked.contains(y),
            decreases children@.len() - x,
        {
            let child = children[x];
            proof {
                self.tree.lemma_children(id as int);
                self.tree.lemma_structure();
                assert(self.tree.has_node(children@[x as int] as int));
                assert(self.tree.path_of(children@[x as int] as int).len() > 0);
            }
            if self.subtree_is_live(child) {
                let key = self.tree.key(child).clone();
                proof {
                    let there = self.tree.path_of(child as int);
                    assert(there =~= there.drop_last().push(there.last()));
                    assert(picked.push(x as int)[picked.len() as int] == x);
                }
                keys.push(key);
                proof {
                    let former = picked;
                    picked = picked.push(x as int);
                    assert forall|y: int|
                        0 <= y < x + 1 && self.has_live_below(
                            self.tree.path_of(#[trigger] children@[y] as int),
                        ) implies picked.contains(y) by {
                        if y < x {
                            let i = former.index_of(y);
                            assert(former.contains(y));
                            assert(picked[i] == y);
                        } else {
                            assert(picked[former.len() as int] == y);
                        }
                    }
                }
            }
            x = x + 1;
        }
        proof {
            self.tree.lemma_children(id as int);
            self.tree.lemma_structure();
            let views = path_view(keys@);
            assert forall|a: int, b: int|
                0 <= a < views.len() && 0 <= b < views.len() && a != b implies views[a]
                != views[b] by {
                if views[a] == views[b] {
                    assert(keys@[a]@ == keys@[b]@);
                    assert(picked[a] != picked[b]);
                    assert(children@[picked[a]] != children@[picked[b]]);
                    assert(self.tree.path_of(children@[picked[a]] as int) == self.tree.path_of(
                        children@[picked[b]] as int,
                    ));
                }
            }
            assert forall|key: Seq<char>| views.contains(key) <==> self.has_live_below(
                here.push(key),
            ) by {
                if views.contains(key) {
                    let i = views.index_of(key);
                    assert(keys@[i]@ == key);
                    assert(0 <= picked[i]);
                }
                if self.has_live_below(here.push(key)) {
                    let deeper = choose|deeper: Seq<Seq<char>>|
                        here.push(key).is_prefix_of(deeper) && is_live(
                            #[trigger] self.history_at(deeper),
                        );
                    assert(self.tree.has_path(deeper));
                    let low = self.tree.id_of(deeper);
                    self.tree.lemma_prefix_closed(low, here.len() as int + 1);
                    assert(deeper.take(here.len() as int + 1) =~= here.push(key));
                    let child = self.tree.id_of(here.push(key));
                    assert(self.tree.path_of(child) == here.push(key));
                    assert(child != 0);
                    assert(here.push(key).drop_last() =~= here);
                    let above = self.tree.parent_of(child).unwrap();
                    assert(self.tree.path_of(above) == self.tree.path_of(id as int));
                    assert(self.tree.parent_of(child) == Some(id as int));
                    let y = choose|y: int| 0 <= y < children@.len() && children@[y] == child;
                    assert(self.has_live_below(self.tree.path_of(children@[y] as int)));
                    assert(picked.contains(y));
                    let i = picked.index_of(y);
                    assert(self.tree.path_of(children@[picked[i]] as int) == here.push(keys@[i]@));
                    assert(here.push(keys@[i]@).last() == keys@[i]@);
                    assert(here.push(key).last() == key);
                    assert(views[i] == key);
                }
            }
        }
        keys
    }
}

} // verus!
