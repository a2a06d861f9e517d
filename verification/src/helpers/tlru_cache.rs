//! Least-recently-used cache that supports item expiry.
//!
//! Entries live in one hash map. The recency order is a ring threaded through
//! the entries by key: every entry names its newer and its older neighbour, and
//! the cache remembers the key of the newest entry. The newest entry's newer
//! neighbour is the oldest entry, which closes the ring.

use std::collections::HashMap;
use std::hash::Hash;
use std::rc::Rc;
use std::time::Instant;
use vstd::prelude::*;
use vstd::std_specs::cmp::PartialEqSpec;
use vstd::std_specs::hash::obeys_key_model;

verus! {

/// What the cache asks of a key type: hashing and `==` agree with equality of
/// values, and a clone equals the value it was made from.
pub open spec fn key_model<K: Clone + Eq + Hash>() -> bool {
    &&& obeys_key_model::<K>()
    &&& K::obeys_eq_spec()
    &&& forall|a: K, b: K| #[trigger] a.eq_spec(&b) <==> a == b
    &&& forall|a: K, b: K| #[trigger] cloned::<K>(a, b) ==> a == b
}

/// Time elapsed from `then` to `now`, zero where `then` is the later one.
pub open spec fn age(now: u128, then: u128) -> int {
    if now >= then {
        now - then
    } else {
        0
    }
}

/// `order` without the key `k`.
pub open spec fn without_key<K>(order: Seq<K>, k: K) -> Seq<K> {
    if order.contains(k) {
        order.remove(order.index_of(k))
    } else {
        order
    }
}

/// The bounds a cache was made with. Ages are in nanoseconds.
pub struct Limits {
    pub max_items: Option<usize>,
    pub max_create_age: Option<u128>,
    pub max_access_age: Option<u128>,
}

/// What the cache keeps for one key: the value and the two times, in
/// nanoseconds of the cache's clock.
pub struct Slot<V> {
    pub value: V,
    pub created: u128,
    pub accessed: u128,
}

impl<V> Slot<V> {
    /// An entry is expired once it is older than the create-age bound or has
    /// been idle for longer than the idle-age bound.
    pub open spec fn expired(self, limits: Limits, now: u128) -> bool {
        ||| (limits.max_create_age matches Some(a) && age(now, self.created) > a)
        ||| (limits.max_access_age matches Some(a) && age(now, self.accessed) > a)
    }
}

/// The mathematical content of a cache: the keys from oldest to newest, what
/// is stored for each, and the bounds.
#[verifier::reject_recursive_types(K)]
#[verifier::ext_equal]
pub struct CacheView<K, V> {
    pub order: Seq<K>,
    pub slots: Map<K, Slot<V>>,
    pub limits: Limits,
}

impl<K, V> CacheView<K, V> {
    /// Every key is listed once, the listed keys are the stored ones, and the
    /// size bound holds.
    pub open spec fn valid(self) -> bool {
        &&& self.order.no_duplicates()
        &&& forall|k: K| self.slots.contains_key(k) <==> self.order.contains(k)
        &&& self.within_bound()
    }

    pub open spec fn within_bound(self) -> bool {
        self.limits.max_items matches Some(m) ==> self.order.len() <= m
    }

    /// The most recently used key.
    pub open spec fn newest(self) -> Option<K> {
        if self.order.len() == 0 {
            None
        } else {
            Some(self.order.last())
        }
    }

    pub open spec fn is_expired(self, k: K, now: u128) -> bool {
        self.slots[k].expired(self.limits, now)
    }

    /// The cache with nothing in it.
    pub open spec fn cleared(self) -> Self {
        CacheView { order: Seq::empty(), slots: Map::empty(), limits: self.limits }
    }

    /// The cache without `k`.
    pub open spec fn without(self, k: K) -> Self {
        CacheView {
            order: without_key(self.order, k),
            slots: self.slots.remove(k),
            limits: self.limits,
        }
    }

    /// `k` stored afresh at time `now` and made the newest key.
    pub open spec fn put(self, k: K, value: V, now: u128) -> Self {
        CacheView {
            order: without_key(self.order, k).push(k),
            slots: self.slots.insert(k, Slot { value, created: now, accessed: now }),
            limits: self.limits,
        }
    }

    /// `k` used at time `now`: made the newest key, its idle time restarted.
    pub open spec fn touch(self, k: K, now: u128) -> Self {
        CacheView {
            order: without_key(self.order, k).push(k),
            slots: self.slots.insert(k, Slot { accessed: now, ..self.slots[k] }),
            limits: self.limits,
        }
    }

    /// What a lookup of `k` at time `now` finds: the value, unless the key is
    /// missing or its entry expired.
    pub open spec fn lookup(self, k: K, now: u128) -> Option<V> {
        if self.slots.contains_key(k) && !self.is_expired(k, now) {
            Some(self.slots[k].value)
        } else {
            None
        }
    }

    /// The cache after a lookup of `k` at time `now`: an expired entry is
    /// gone, a good one has become the newest.
    pub open spec fn after_get(self, k: K, now: u128) -> Self {
        if !self.slots.contains_key(k) {
            self
        } else if self.is_expired(k, now) {
            self.without(k)
        } else {
            self.touch(k, now)
        }
    }

    /// The test that the keys which are still good at `now` pass.
    pub open spec fn live_at(self, now: u128) -> spec_fn(K) -> bool {
        |k: K| !self.is_expired(k, now)
    }

    /// How many entries are over the size bound.
    pub open spec fn excess(self) -> int {
        match self.limits.max_items {
            Some(m) => if self.order.len() > m {
                self.order.len() - m
            } else {
                0
            },
            None => 0,
        }
    }

    /// How many keys at the front of `keys` are expired at `now`.
    pub open spec fn leading_expired(self, keys: Seq<K>, now: u128) -> int
        decreases keys.len(),
    {
        if keys.len() == 0 || !self.is_expired(keys[0], now) {
            0
        } else {
            1 + self.leading_expired(keys.skip(1), now)
        }
    }

    /// The keys that a collection at `now` keeps. The oldest keys over the
    /// size bound go first. Of the others a full collection drops every
    /// expired key, a partial one only the expired keys in front of the oldest
    /// key that is still good.
    pub open spec fn survivors(self, full: bool, now: u128) -> Seq<K> {
        let rest = self.order.skip(self.excess());
        if full {
            rest.filter(self.live_at(now))
        } else {
            rest.skip(self.leading_expired(rest, now))
        }
    }

    /// The cache after a collection at `now`.
    pub open spec fn collect(self, full: bool, now: u128) -> Self {
        let kept = self.survivors(full, now);
        CacheView { order: kept, slots: self.slots.restrict(kept.to_set()), limits: self.limits }
    }
}

/// Cache entry: the value, the links to the newer and older keys, and the
/// times by which expiry is judged.
struct CacheEntry<K, V> {
    value: Rc<V>,
    newer: K,
    older: K,
    create_time: u128,
    access_time: u128,
}

impl<K, V> CacheEntry<K, V> {
    spec fn slot(self) -> Slot<V> {
        Slot { value: *self.value, created: self.create_time, accessed: self.access_time }
    }
}

/// Position after `i` on a ring of `n` places.
pub open spec fn next_place(i: int, n: int) -> int {
    if i + 1 == n {
        0
    } else {
        i + 1
    }
}

/// Position before `i` on a ring of `n` places.
pub open spec fn prev_place(i: int, n: int) -> int {
    if i == 0 {
        n - 1
    } else {
        i - 1
    }
}

/// The links of `entries` thread the keys of `order` into one ring, oldest to
/// newest and back to the oldest.
spec fn ring_ok<K, V>(entries: Map<K, CacheEntry<K, V>>, order: Seq<K>) -> bool {
    &&& order.no_duplicates()
    &&& forall|k: K| entries.contains_key(k) <==> order.contains(k)
    &&& forall|i: int|
        0 <= i < order.len() ==> {
            &&& (#[trigger] entries[order[i]]).newer == order[next_place(i, order.len() as int)]
            &&& entries[order[i]].older == order[prev_place(i, order.len() as int)]
        }
}

/// The entries once the key at place `p` has been taken out of the ring.
spec fn unlinked<K, V>(entries: Map<K, CacheEntry<K, V>>, order: Seq<K>, p: int) -> Map<
    K,
    CacheEntry<K, V>,
> {
    let k = order[p];
    let nk = entries[k].newer;
    let ok = entries[k].older;
    let m1 = entries.remove(k);
    if order.len() == 1 {
        m1
    } else {
        let m2 = m1.insert(nk, CacheEntry { older: ok, ..m1[nk] });
        m2.insert(ok, CacheEntry { newer: nk, ..m2[ok] })
    }
}

/// The entries once `k`, which the ring does not hold, has been linked in as
/// the newest key with `fresh` as its content.
spec fn linked<K, V>(
    entries: Map<K, CacheEntry<K, V>>,
    order: Seq<K>,
    k: K,
    fresh: CacheEntry<K, V>,
) -> Map<K, CacheEntry<K, V>> {
    if order.len() == 0 {
        entries.insert(k, CacheEntry { newer: k, older: k, ..fresh })
    } else {
        let nw = order.last();
        let od = order[0];
        let m1 = entries.insert(nw, CacheEntry { newer: k, ..entries[nw] });
        let m2 = m1.insert(od, CacheEntry { older: k, ..m1[od] });
        m2.insert(k, CacheEntry { newer: od, older: nw, ..fresh })
    }
}

proof fn lemma_without_at<K>(order: Seq<K>, p: int)
    requires
        order.no_duplicates(),
        0 <= p < order.len(),
    ensures
        without_key(order, order[p]) == order.remove(p),
{
    assert(order.contains(order[p]));
}

proof fn lemma_without_absent<K>(order: Seq<K>, k: K)
    requires
        !order.contains(k),
    ensures
        without_key(order, k) == order,
{
}

proof fn lemma_remove_keeps_distinct<K>(order: Seq<K>, p: int)
    requires
        order.no_duplicates(),
        0 <= p < order.len(),
    ensures
        order.remove(p).no_duplicates(),
        forall|x: K| order.remove(p).contains(x) <==> (order.contains(x) && x != order[p]),
{
    let o = order.remove(p);
    assert forall|i: int, j: int| 0 <= i < o.len() && 0 <= j < o.len() && i != j implies o[i]
        != o[j] by {
        let a = if i < p { i } else { i + 1 };
        let b = if j < p { j } else { j + 1 };
        assert(o[i] == order[a]);
        assert(o[j] == order[b]);
    }
    assert forall|x: K| o.contains(x) <==> (order.contains(x) && x != order[p]) by {
        if o.contains(x) {
            let i = choose|i: int| 0 <= i < o.len() && o[i] == x;
            let a = if i < p { i } else { i + 1 };
            assert(order[a] == x);
        }
        if order.contains(x) && x != order[p] {
            let a = choose|a: int| 0 <= a < order.len() && order[a] == x;
            let i = if a < p { a } else { a - 1 };
            assert(o[i] == x);
        }
    }
}

proof fn lemma_restrict_step<K, V>(
    base: Map<K, Slot<V>>,
    order: Seq<K>,
    slots: Map<K, Slot<V>>,
    p: int,
)
    requires
        order.no_duplicates(),
        0 <= p < order.len(),
        slots == base.restrict(order.to_set()),
    ensures
        without_key(order, order[p]) == order.remove(p),
        slots.remove(order[p]) == base.restrict(order.remove(p).to_set()),
        p == 0 ==> order.remove(p) == order.skip(1),
{
    lemma_without_at(order, p);
    lemma_remove_keeps_distinct(order, p);
    if p == 0 {
        assert(order.remove(0) =~= order.skip(1));
    }
    assert(slots.remove(order[p]) =~= base.restrict(order.remove(p).to_set()));
}

proof fn lemma_filter_step<K>(keys: Seq<K>, i: int, pred: spec_fn(K) -> bool)
    requires
        0 <= i < keys.len(),
    ensures
        keys.take(i + 1).filter(pred) == if pred(keys[i]) {
            keys.take(i).filter(pred).push(keys[i])
        } else {
            keys.take(i).filter(pred)
        },
        keys.take(0).filter(pred) == Seq::<K>::empty(),
{
    reveal(Seq::filter);
    assert(keys.take(i + 1).drop_last() =~= keys.take(i));
    assert(keys.take(i + 1).last() == keys[i]);
    assert(keys.take(0) =~= Seq::<K>::empty());
}

proof fn lemma_unlink<K, V>(entries: Map<K, CacheEntry<K, V>>, order: Seq<K>, p: int)
    requires
        ring_ok(entries, order),
        0 <= p < order.len(),
    ensures
        ring_ok(unlinked(entries, order, p), order.remove(p)),
        forall|x: K|
            x != order[p] && entries.contains_key(x) ==> (#[trigger] unlinked(
                entries,
                order,
                p,
            )[x]).slot() == entries[x].slot(),
{
    let n = order.len() as int;
    let k = order[p];
    let o = order.remove(p);
    let m = unlinked(entries, order, p);
    lemma_remove_keeps_distinct(order, p);
    assert(order.contains(k));
    assert(entries[order[p]].newer == order[next_place(p, n)]);
    if n == 1 {
        assert(o.len() == 0);
        assert forall|x: K| m.contains_key(x) <==> o.contains(x) by {
            if order.contains(x) {
                let i = choose|i: int| 0 <= i < order.len() && order[i] == x;
                assert(i == 0);
            }
        }
    } else {
        let nk = entries[k].newer;
        let ok = entries[k].older;
        let np = next_place(p, n);
        let pp = prev_place(p, n);
        assert(nk == order[np] && ok == order[pp]);
        assert(nk != k && ok != k);
        assert(order.contains(order[np]) && order.contains(order[pp]));
        let m1 = entries.remove(k);
        let m2 = m1.insert(nk, CacheEntry { older: ok, ..m1[nk] });
        assert(m == m2.insert(ok, CacheEntry { newer: nk, ..m2[ok] }));
        assert forall|x: K| m.contains_key(x) <==> o.contains(x) by {
            assert(order.contains(nk) && order.contains(ok));
            assert(m1.contains_key(x) <==> (entries.contains_key(x) && x != k));
            assert(m2.contains_key(x) <==> (m1.contains_key(x) || x == nk));
            assert(m.contains_key(x) <==> (m2.contains_key(x) || x == ok));
            assert(o.contains(x) <==> (order.contains(x) && x != k));
        }
        assert forall|i: int| 0 <= i < o.len() implies {
            &&& (#[trigger] m[o[i]]).newer == o[next_place(i, o.len() as int)]
            &&& m[o[i]].older == o[prev_place(i, o.len() as int)]
        } by {
            let j = if i < p { i } else { i + 1 };
            assert(o[i] == order[j]);
            assert(entries[order[j]].newer == order[next_place(j, n)]);
            let i2 = next_place(i, n - 1);
            let j2 = if i2 < p { i2 } else { i2 + 1 };
            assert(o[i2] == order[j2]);
            let i0 = prev_place(i, n - 1);
            let j0 = if i0 < p { i0 } else { i0 + 1 };
            assert(o[i0] == order[j0]);
            assert(order[j] == ok <==> j == pp);
            assert(order[j] == nk <==> j == np);
        }
    }
}

proof fn lemma_link<K, V>(
    entries: Map<K, CacheEntry<K, V>>,
    order: Seq<K>,
    k: K,
    fresh: CacheEntry<K, V>,
)
    requires
        ring_ok(entries, order),
        !order.contains(k),
    ensures
        ring_ok(linked(entries, order, k, fresh), order.push(k)),
        linked(entries, order, k, fresh)[k].slot() == fresh.slot(),
        forall|x: K|
            x != k && entries.contains_key(x) ==> (#[trigger] linked(entries, order, k, fresh)[x]).slot()
                == entries[x].slot(),
{
    let n = order.len() as int;
    let o = order.push(k);
    let m = linked(entries, order, k, fresh);
    assert forall|i: int, j: int| 0 <= i < o.len() && 0 <= j < o.len() && i != j implies o[i]
        != o[j] by {
        if i < n {
            assert(order.contains(o[i]));
        }
        if j < n {
            assert(order.contains(o[j]));
        }
    }
    assert forall|x: K| m.contains_key(x) <==> o.contains(x) by {
        if o.contains(x) {
            let i = choose|i: int| 0 <= i < o.len() && o[i] == x;
            if i < n {
                assert(order.contains(x));
            }
        }
        if n > 0 {
            assert(order.contains(order[0]) && order.contains(order[n - 1]));
        }
        if order.contains(x) {
            let i = choose|i: int| 0 <= i < order.len() && order[i] == x;
            assert(o[i] == x);
        }
        assert(o[n] == k);
    }
    if n > 0 {
        let nw = order[n - 1];
        let od = order[0];
        assert(order.contains(nw) && order.contains(od));
        assert forall|i: int| 0 <= i < o.len() implies {
            &&& (#[trigger] m[o[i]]).newer == o[next_place(i, o.len() as int)]
            &&& m[o[i]].older == o[prev_place(i, o.len() as int)]
        } by {
            if i < n {
                assert(o[i] == order[i]);
                assert(order.contains(order[i]));
                assert(entries[order[i]].newer == order[next_place(i, n)]);
                assert(order[i] == nw <==> i == n - 1);
                assert(order[i] == od <==> i == 0);
            }
        }
    }
}

/// `std::time::Instant`: a reading of the monotonic clock. The cache keeps
/// one as the origin of its clock and never looks inside it.
#[verifier::external_type_specification]
#[verifier::external_body]
pub struct ExInstant(std::time::Instant);

/// `Instant::now`: the current reading of the monotonic clock. Nothing is
/// claimed of it.
#[verifier::external_body]
fn clock_start() -> (origin: Instant) {
    Instant::now()
}

/// `Instant::elapsed`, in nanoseconds: the time that has passed since
/// `origin` was read. Nothing is claimed of it.
#[verifier::external_body]
fn clock_read(origin: &Instant) -> (nanos: u128) {
    origin.elapsed().as_nanos()
}

/// `Rc::clone`: another handle to the same value.
#[verifier::external_body]
fn share<V>(handle: &Rc<V>) -> (other: Rc<V>)
    ensures
        other == *handle,
{
    Rc::clone(handle)
}

/// A copy of `key`.
fn dup<K: Clone + Eq + Hash>(key: &K) -> (copy: K)
    requires
        key_model::<K>(),
    ensures
        copy == *key,
{
    let copy = key.clone();
    assert(cloned::<K>(*key, copy));
    copy
}

/// Least-recently-used cache that supports item expiry.
#[verifier::reject_recursive_types(K)]
pub struct TLRUCache<K, V> {
    /// Hashmap of all cache entries.
    entries: HashMap<K, CacheEntry<K, V>>,
    /// The key of the newest entry.
    newest_entry: Option<K>,
    /// The maximum number of items in the cache.
    max_items: Option<usize>,
    /// The maximum age of the item before it is removed, in nanoseconds.
    max_create_age: Option<u128>,
    /// The maximum time since last use before the item is removed, in
    /// nanoseconds.
    max_access_age: Option<u128>,
    /// Where the cache's clock starts.
    origin: Instant,
    /// The keys from oldest to newest.
    order: Ghost<Seq<K>>,
}

impl<K: Clone + Eq + Hash, V> TLRUCache<K, V> {
    /// The bounds the cache was made with.
    pub closed spec fn limits(&self) -> Limits {
        Limits {
            max_items: self.max_items,
            max_create_age: self.max_create_age,
            max_access_age: self.max_access_age,
        }
    }

    /// The content of the cache.
    pub closed spec fn view(&self) -> CacheView<K, V> {
        CacheView {
            order: self.order@,
            slots: Map::new(
                |k: K| self.entries@.contains_key(k),
                |k: K| self.entries@[k].slot(),
            ),
            limits: self.limits(),
        }
    }

    /// The key that the cache holds as its newest.
    pub closed spec fn newest_key(&self) -> Option<K> {
        self.newest_entry
    }

    /// The newer neighbour of `k` on the ring.
    pub closed spec fn ring_next(&self, k: K) -> K {
        self.entries@[k].newer
    }

    /// The older neighbour of `k` on the ring.
    pub closed spec fn ring_prev(&self, k: K) -> K {
        self.entries@[k].older
    }

    /// The ring is intact and the newest key is the one the cache names.
    spec fn linked_up(&self) -> bool {
        &&& key_model::<K>()
        &&& ring_ok(self.entries@, self.order@)
        &&& self.newest_entry == self@.newest()
    }

    /// The cache is well formed: the ring is intact and the size bound holds.
    pub closed spec fn wf(&self) -> bool {
        &&& self.linked_up()
        &&& self@.within_bound()
    }

    /// Takes `key` out of the ring and out of the map.
    fn unlink(&mut self, key: &K) -> (entry: CacheEntry<K, V>)
        requires
            old(self).linked_up(),
            old(self).entries@.contains_key(*key),
        ensures
            final(self).linked_up(),
            final(self)@ == old(self)@.without(*key),
            final(self).origin == old(self).origin,
            entry.slot() == old(self)@.slots[*key],
    {
        broadcast use vstd::std_specs::hash::group_hash_axioms;

        let ghost before = self.entries@;
        let ghost order = self.order@;
        let ghost p = order.index_of(*key);
        proof {
            assert(order.contains(*key));
            lemma_unlink(before, order, p);
            lemma_without_at(order, p);
            assert(before[order[p]].newer == order[next_place(p, order.len() as int)]);
            assert(order.contains(order[next_place(p, order.len() as int)]));
            assert(order.contains(order[prev_place(p, order.len() as int)]));
        }
        let entry = self.entries.remove(key).unwrap();
        let sole = entry.newer == *key;
        if sole {
            self.newest_entry = None;
        } else {
            // join both sides of the entry that leaves
            let mut newer = self.entries.remove(&entry.newer).unwrap();
            newer.older = dup(&entry.older);
            self.entries.insert(dup(&entry.newer), newer);
            let mut older = self.entries.remove(&entry.older).unwrap();
            older.newer = dup(&entry.newer);
            self.entries.insert(dup(&entry.older), older);
            let was_newest = match &self.newest_entry {
                Some(newest) => *newest == *key,
                None => false,
            };
            if was_newest {
                self.newest_entry = Some(dup(&entry.older));
            }
        }
        self.order = Ghost(order.remove(p));
        proof {
            assert(self.entries@ =~= unlinked(before, order, p));
            assert(self@.slots =~= old(self)@.slots.remove(*key));
        }
        entry
    }
    /// Links `key`, which the cache does not hold, in as the newest entry.
    fn link_newest(&mut self, key: K, value: Rc<V>, create_time: u128, access_time: u128)
        requires
            old(self).linked_up(),
            !old(self).entries@.contains_key(key),
        ensures
            final(self).linked_up(),
            final(self)@.order == old(self)@.order.push(key),
            final(self)@.slots == old(self)@.slots.insert(
                key,
                Slot { value: *value, created: create_time, accessed: access_time },
            ),
            final(self)@.limits == old(self)@.limits,
            final(self).origin == old(self).origin,
    {
        broadcast use vstd::std_specs::hash::group_hash_axioms;

        let ghost before = self.entries@;
        let ghost order = self.order@;
        let ghost n = order.len() as int;
        let current_newest = match &self.newest_entry {
            Some(newest) => Some(dup(newest)),
            None => None,
        };
        let new_node = match current_newest {
            Some(current_newest_key) => {
                // inserting with existing entries
                proof {
                    assert(order.contains(order[n - 1]));
                    assert(order.contains(order[0]));
                    assert(before[order[n - 1]].newer == order[next_place(n - 1, n)]);
                }
                let mut current_newest = self.entries.remove(&current_newest_key).unwrap();
                let current_oldest_key = dup(&current_newest.newer);
                current_newest.newer = dup(&key);
                self.entries.insert(dup(&current_newest_key), current_newest);
                let mut current_oldest = self.entries.remove(&current_oldest_key).unwrap();
                current_oldest.older = dup(&key);
                self.entries.insert(dup(&current_oldest_key), current_oldest);
                CacheEntry {
                    value,
                    newer: current_oldest_key,
                    older: current_newest_key,
                    create_time,
                    access_time,
                }
            },
            None => {
                // inserting the first entry
                CacheEntry { value, newer: dup(&key), older: dup(&key), create_time, access_time }
            },
        };
        proof {
            lemma_link(before, order, key, new_node);
        }
        self.entries.insert(dup(&key), new_node);
        // update pointer to most recent item
        self.newest_entry = Some(key);
        self.order = Ghost(order.push(key));
        proof {
            assert(self.entries@ =~= linked(before, order, key, new_node));
            assert(self@.slots =~= old(self)@.slots.insert(
                key,
                Slot { value: *value, created: create_time, accessed: access_time },
            ));
        }
    }

    /// Creates a new empty cache. The ages are in nanoseconds.
    pub fn new(
        max_items: Option<usize>,
        max_create_age: Option<u128>,
        max_used_age: Option<u128>,
    ) -> (cache: Self)
        requires
            key_model::<K>(),
        ensures
            cache.wf(),
            cache@.order == Seq::<K>::empty(),
            cache@.slots == Map::<K, Slot<V>>::empty(),
            cache@.limits == (Limits {
                max_items,
                max_create_age,
                max_access_age: max_used_age,
            }),
    {
        broadcast use vstd::std_specs::hash::group_hash_axioms;

        let cache = Self {
            entries: HashMap::new(),
            newest_entry: None,
            max_items,
            max_create_age,
            max_access_age: max_used_age,
            origin: clock_start(),
            order: Ghost(Seq::empty()),
        };
        proof {
            assert(cache@.slots =~= Map::<K, Slot<V>>::empty());
        }
        cache
    }

    /// The reading of the cache's clock: nanoseconds since the cache was made.
    pub fn now(&self) -> (nanos: u128) {
        clock_read(&self.origin)
    }

    /// Explicitly removes a cache entry. A key that the cache does not hold
    /// leaves it as it is.
    pub fn remove(&mut self, key: &K)
        requires
            old(self).wf(),
        ensures
            final(self).wf(),
            final(self)@ == old(self)@.without(*key),
    {
        broadcast use vstd::std_specs::hash::group_hash_axioms;

        if self.entries.contains_key(key) {
            proof {
                let p = self.order@.index_of(*key);
                assert(self.order@.contains(*key));
                lemma_without_at(self.order@, p);
            }
            let _ = self.unlink(key);
        } else {
            proof {
                lemma_without_absent(self.order@, *key);
                assert(self@.slots =~= self@.slots.remove(*key));
            }
        }
    }

    /// Removes all entries in the cache.
    pub fn clear(&mut self)
        requires
            old(self).wf(),
        ensures
            final(self).wf(),
            final(self)@ == old(self)@.cleared(),
    {
        self.newest_entry = None;
        self.entries.clear();
        self.order = Ghost(Seq::empty());
        proof {
            assert(self@.slots =~= Map::<K, Slot<V>>::empty());
        }
    }

    /// Checks if a cache entry is still good at `now`.
    fn is_entry_not_expired(&self, cache_entry: &CacheEntry<K, V>, now: u128) -> (live: bool)
        ensures
            live == !cache_entry.slot().expired(self.limits(), now),
    {
        // check creation age
        if let Some(max_create_age) = self.max_create_age {
            let create_age = if now >= cache_entry.create_time {
                now - cache_entry.create_time
            } else {
                0
            };
            if create_age > max_create_age {
                return false;
            }
        }
        // check access age
        if let Some(max_access_age) = self.max_access_age {
            let access_age = if now >= cache_entry.access_time {
                now - cache_entry.access_time
            } else {
                0
            };
            if access_age > max_access_age {
                return false;
            }
        }
        true
    }

    /// Gets an item from the cache as of time `now` on the cache's clock.
    /// Returns None if the item was not found or was expired; an expired item
    /// is removed. An item that is found becomes the newest.
    pub fn get_at(&mut self, key: &K, now: u128) -> (found: Option<Rc<V>>)
        requires
            old(self).wf(),
        ensures
            final(self).wf(),
            final(self)@ == old(self)@.after_get(*key, now),
            match found {
                Some(value) => old(self)@.lookup(*key, now) == Some(*value),
                None => old(self)@.lookup(*key, now) is None,
            },
            found is Some ==> final(self).newest_key() == Some(*key),
    {
        broadcast use vstd::std_specs::hash::group_hash_axioms;

        let live = match self.entries.get(key) {
            Some(entry) => Some(self.is_entry_not_expired(entry, now)),
            None => None,
        };
        match live {
            Some(true) => {
                proof {
                    let p = self.order@.index_of(*key);
                    assert(self.order@.contains(*key));
                    lemma_without_at(self.order@, p);
                }
                // take the entry from its place and link it in as the newest
                let entry = self.unlink(key);
                assert(!self@.slots.contains_key(*key));
                let value = entry.value;
                let found = share(&value);
                self.link_newest(dup(key), value, entry.create_time, now);
                proof {
                    assert(self@.slots =~= old(self)@.touch(*key, now).slots);
                    assert(self@.order.len() == old(self)@.order.len());
                }
                Some(found)
            },
            Some(false) => {
                // if entry expired, remove it
                let _ = self.unlink(key);
                proof {
                    let p = old(self).order@.index_of(*key);
                    assert(old(self).order@.contains(*key));
                    lemma_without_at(old(self).order@, p);
                }
                None
            },
            None => None,
        }
    }

    /// Gets an item from the cache.
    /// Returns None if the item was not found or was expired.
    pub fn get(&mut self, key: &K) -> (found: Option<Rc<V>>)
        requires
            old(self).wf(),
        ensures
            final(self).wf(),
            exists|now: u128|
                {
                    &&& final(self)@ == #[trigger] old(self)@.after_get(*key, now)
                    &&& match found {
                        Some(value) => old(self)@.lookup(*key, now) == Some(*value),
                        None => old(self)@.lookup(*key, now) is None,
                    }
                },
            found is Some ==> final(self).newest_key() == Some(*key),
    {
        let now = self.now();
        self.get_at(key, now)
    }

    /// The map holds as many entries as the ring has keys.
    proof fn lemma_count(&self)
        requires
            self.linked_up(),
        ensures
            self.entries@.len() == self.order@.len(),
            self.entries@.dom() == self.order@.to_set(),
    {
        self.order@.unique_seq_to_set();
        assert(self.entries@.dom() =~= self.order@.to_set());
    }

    /// The key of the oldest entry.
    fn oldest(&self) -> (key: K)
        requires
            self.linked_up(),
            self.order@.len() > 0,
        ensures
            key == self.order@[0],
    {
        broadcast use vstd::std_specs::hash::group_hash_axioms;

        let ghost n = self.order@.len() as int;
        proof {
            assert(self.order@.contains(self.order@[n - 1]));
            assert(self.entries@[self.order@[n - 1]].newer == self.order@[next_place(n - 1, n)]);
        }
        match &self.newest_entry {
            Some(newest) => dup(&self.entries.get(newest).unwrap().newer),
            None => {
                proof {
                    assert(false);
                }
                vstd::pervasive::unreached()
            },
        }
    }

    /// Drops the oldest entries until the size bound holds.
    fn evict_excess(&mut self)
        requires
            old(self).linked_up(),
        ensures
            final(self).linked_up(),
            final(self)@.within_bound(),
            final(self)@.order == old(self)@.order.skip(old(self)@.excess()),
            final(self)@.slots == old(self)@.slots.restrict(final(self)@.order.to_set()),
            final(self)@.limits == old(self)@.limits,
            final(self).origin == old(self).origin,
    {
        broadcast use vstd::std_specs::hash::group_hash_axioms;

        let ghost base = self@;
        let ghost dropped = 0int;
        proof {
            self.lemma_count();
            assert(self@.order =~= base.order.skip(0));
            assert(self@.slots =~= base.slots.restrict(self@.order.to_set()));
        }
        if let Some(max_items) = self.max_items {
            while self.entries.len() > max_items
                invariant
                    self.linked_up(),
                    self.max_items == Some(max_items),
                    self@.limits == base.limits,
                    self.origin == old(self).origin,
                    self.entries@.len() == self@.order.len(),
                    0 <= dropped <= base.excess(),
                    dropped <= base.order.len(),
                    self@.order == base.order.skip(dropped),
                    self@.slots == base.slots.restrict(self@.order.to_set()),
                decreases self@.order.len(),
            {
                // if we're over the max size of the cache, remove the oldest entry
                let ghost before = self@;
                let oldest = self.oldest();
                proof {
                    assert(before.order.contains(before.order[0]));
                    lemma_restrict_step(base.slots, before.order, before.slots, 0);
                    assert(before.order.skip(1) =~= base.order.skip(dropped + 1));
                }
                let _ = self.unlink(&oldest);
                proof {
                    self.lemma_count();
                    dropped = dropped + 1;
                }
            }
        }
    }

    /// Drops the expired entries in front of the oldest entry that is still
    /// good.
    fn drop_leading_expired(&mut self, now: u128, Ghost(base): Ghost<CacheView<K, V>>)
        requires
            old(self).linked_up(),
            old(self)@.within_bound(),
            old(self)@.limits == base.limits,
            old(self)@.slots == base.slots.restrict(old(self)@.order.to_set()),
        ensures
            final(self).linked_up(),
            final(self)@.within_bound(),
            final(self)@.order == old(self)@.order.skip(
                base.leading_expired(old(self)@.order, now),
            ),
            final(self)@.slots == base.slots.restrict(final(self)@.order.to_set()),
            final(self)@.limits == base.limits,
            final(self).origin == old(self).origin,
    {
        broadcast use vstd::std_specs::hash::group_hash_axioms;

        let ghost rest = self@.order;
        let ghost dropped = 0int;
        proof {
            self.lemma_count();
            assert(self@.order =~= rest.skip(0));
        }
        while self.entries.len() > 0
            invariant_except_break
                self.linked_up(),
                self@.within_bound(),
                self@.limits == base.limits,
                self.origin == old(self).origin,
                self.entries@.len() == self@.order.len(),
                0 <= dropped <= rest.len(),
                self@.order == rest.skip(dropped),
                self@.slots == base.slots.restrict(self@.order.to_set()),
                base.leading_expired(rest, now) == dropped + base.leading_expired(
                    self@.order,
                    now,
                ),
            ensures
                self.linked_up(),
                self@.within_bound(),
                self@.limits == base.limits,
                self.origin == old(self).origin,
                self@.order == rest.skip(base.leading_expired(rest, now)),
                self@.slots == base.slots.restrict(self@.order.to_set()),
            decreases self@.order.len(),
        {
            let ghost before = self@;
            let oldest = self.oldest();
            proof {
                assert(before.order.contains(before.order[0]));
                assert(before.slots[oldest] == base.slots[oldest]);
                lemma_restrict_step(base.slots, before.order, before.slots, 0);
                assert(before.order.skip(1) =~= rest.skip(dropped + 1));
            }
            let live = self.is_entry_not_expired(self.entries.get(&oldest).unwrap(), now);
            if live {
                // entry is valid: a partial collection ends here
                assert(base.leading_expired(before.order, now) == 0);
                break ;
            }
            // if the entry is invalid, remove it
            assert(base.leading_expired(before.order, now) == 1 + base.leading_expired(
                before.order.skip(1),
                now,
            ));
            let _ = self.unlink(&oldest);
            proof {
                self.lemma_count();
                dropped = dropped + 1;
            }
        }
    }

    /// Drops every expired entry.
    fn drop_all_expired(&mut self, now: u128, Ghost(base): Ghost<CacheView<K, V>>)
        requires
            old(self).linked_up(),
            old(self)@.within_bound(),
            old(self)@.limits == base.limits,
            old(self)@.slots == base.slots.restrict(old(self)@.order.to_set()),
        ensures
            final(self).linked_up(),
            final(self)@.within_bound(),
            final(self)@.order == old(self)@.order.filter(base.live_at(now)),
            final(self)@.slots == base.slots.restrict(final(self)@.order.to_set()),
            final(self)@.limits == base.limits,
            final(self).origin == old(self).origin,
    {
        broadcast use vstd::std_specs::hash::group_hash_axioms;

        let ghost rest = self@.order;
        let ghost live = base.live_at(now);
        let ghost visited = 0int;
        let mut remaining = self.entries.len();
        proof {
            self.lemma_count();
            if rest.len() > 0 {
                lemma_filter_step(rest, 0, live);
            }
            assert(self@.order =~= rest.take(0).filter(live) + rest.skip(0)) by {
                reveal(Seq::filter);
                assert(rest.take(0) =~= Seq::<K>::empty());
            }
        }
        if remaining > 0 {
            let mut cursor = self.oldest();
            while remaining > 0
                invariant
                    self.linked_up(),
                    self@.within_bound(),
                    self@.limits == base.limits,
                    self.origin == old(self).origin,
                    live == base.live_at(now),
                    rest.no_duplicates(),
                    0 <= visited <= rest.len(),
                    remaining == rest.len() - visited,
                    self@.order == rest.take(visited).filter(live) + rest.skip(visited),
                    visited < rest.len() ==> cursor == rest[visited],
                    self@.slots == base.slots.restrict(self@.order.to_set()),
                decreases remaining,
            {
                let ghost before = self@;
                let ghost kept = rest.take(visited).filter(live);
                let ghost p = kept.len() as int;
                proof {
                    assert(before.order[p] == rest.skip(visited)[0]);
                    assert(before.order.contains(before.order[p]));
                    assert(self.entries@[before.order[p]].newer == before.order[next_place(
                        p,
                        before.order.len() as int,
                    )]);
                    if visited + 1 < rest.len() {
                        assert(before.order[p + 1] == rest.skip(visited)[1]);
                    }
                    lemma_filter_step(rest, visited, live);
                    assert(before.slots[cursor] == base.slots[cursor]);
                }
                // save next entry for later
                let entry = self.entries.get(&cursor).unwrap();
                let next = dup(&entry.newer);
                let good = self.is_entry_not_expired(entry, now);
                if !good {
                    // if the entry is invalid, remove it
                    proof {
                        lemma_restrict_step(base.slots, before.order, before.slots, p);
                        assert(before.order.remove(p) =~= kept + rest.skip(visited + 1));
                    }
                    let _ = self.unlink(&cursor);
                } else {
                    proof {
                        assert(before.order =~= kept.push(rest[visited]) + rest.skip(visited + 1));
                    }
                }
                cursor = next;
                remaining = remaining - 1;
                proof {
                    visited = visited + 1;
                }
            }
        }
        proof {
            assert(rest.take(rest.len() as int) =~= rest);
            assert(self@.order =~= rest.filter(live));
        }
    }

    /// Drops what is over the size bound and, of the rest, what is expired:
    /// all of it when `full`, else up to the oldest entry that is still good.
    fn collect(&mut self, full: bool, now: u128)
        requires
            old(self).linked_up(),
        ensures
            final(self).linked_up(),
            final(self)@.within_bound(),
            final(self)@ == old(self)@.collect(full, now),
            final(self).origin == old(self).origin,
    {
        let ghost base = self@;
        self.evict_excess();
        if full {
            self.drop_all_expired(now, Ghost(base));
        } else {
            self.drop_leading_expired(now, Ghost(base));
        }
    }

    /// Removes expired items from the cache as of time `now` on the cache's
    /// clock. If the `full` parameter is set to false, this only removes the
    /// expired items until it finds a non-expired item. If the `full`
    /// parameter is set to true, this removes all expired items.
    pub fn gc_at(&mut self, full: bool, now: u128)
        requires
            old(self).wf(),
        ensures
            final(self).wf(),
            final(self)@ == old(self)@.collect(full, now),
    {
        self.collect(full, now);
    }

    /// Removes expired items from the cache and reduces the cache size to the
    /// maximum. Without a time the cache's clock is read.
    pub fn gc(&mut self, full: bool, now: Option<u128>)
        requires
            old(self).wf(),
        ensures
            final(self).wf(),
            match now {
                Some(at) => final(self)@ == old(self)@.collect(full, at),
                None => exists|at: u128| final(self)@ == #[trigger] old(self)@.collect(full, at),
            },
    {
        let now = if let Some(now) = now {
            now
        } else {
            self.now()
        };
        self.gc_at(full, now);
    }

    /// Inserts an item into the cache as of time `now` on the cache's clock.
    /// The item becomes the newest; a value already stored for the key is
    /// replaced. The oldest items leave when the cache is over its size or
    /// they are expired.
    pub fn insert_at(&mut self, key: K, value: V, now: u128)
        requires
            old(self).wf(),
        ensures
            final(self).wf(),
            final(self)@ == old(self)@.put(key, value, now).collect(false, now),
    {
        broadcast use vstd::std_specs::hash::group_hash_axioms;

        if self.entries.contains_key(&key) {
            proof {
                let p = self.order@.index_of(key);
                assert(self.order@.contains(key));
                lemma_without_at(self.order@, p);
            }
            let _ = self.unlink(&key);
            assert(!self@.slots.contains_key(key));
        } else {
            proof {
                lemma_without_absent(self.order@, key);
            }
        }
        self.link_newest(dup(&key), Rc::new(value), now, now);
        proof {
            assert(self@.slots =~= old(self)@.put(key, value, now).slots);
            assert(self@ =~= old(self)@.put(key, value, now));
        }
        self.collect(false, now);
    }

    /// Inserts an item into the cache.
    pub fn insert(&mut self, key: K, value: V)
        requires
            old(self).wf(),
        ensures
            final(self).wf(),
            exists|now: u128|
                final(self)@ == (#[trigger] old(self)@.put(key, value, now)).collect(false, now),
    {
        let now = self.now();
        self.insert_at(key, value, now);
    }

    /// The number of items in the cache.
    pub fn len(&self) -> (count: usize)
        requires
            self.wf(),
        ensures
            count == self@.order.len(),
    {
        broadcast use vstd::std_specs::hash::group_hash_axioms;

        proof {
            self.lemma_count();
        }
        self.entries.len()
    }

    /// The key reached from the newest key after `steps` steps, each to the
    /// newer neighbour; the first step leads from the newest key round to the
    /// oldest.
    pub closed spec fn walk(&self, steps: nat) -> K
        decreases steps,
    {
        if steps == 0 {
            self.newest_entry.unwrap()
        } else {
            self.ring_next(self.walk((steps - 1) as nat))
        }
    }

    proof fn lemma_walk_place(&self, steps: nat)
        requires
            self.linked_up(),
            steps <= self.order@.len(),
            self.order@.len() > 0,
        ensures
            self.walk(steps) == self.order@[if steps == 0 {
                self.order@.len() - 1
            } else {
                steps - 1
            }],
        decreases steps,
    {
        let n = self.order@.len() as int;
        if steps > 0 {
            self.lemma_walk_place((steps - 1) as nat);
            let at = if steps == 1 {
                n - 1
            } else {
                steps - 2
            };
            assert(self.entries@[self.order@[at]].newer == self.order@[next_place(at, n)]);
        }
    }

    /// The ring follows the order of the content. The newer neighbour of a
    /// key is the key behind it in the order, the older neighbour the key in
    /// front of it, and the order closes to a ring: behind the newest key
    /// comes the oldest. A walk from the newest key stands after its first
    /// step on the oldest key and from there goes along the order.
    pub proof fn lemma_ring_follows_order(&self)
        requires
            self.wf(),
        ensures
            self.newest_key() == self@.newest(),
            forall|i: int|
                0 <= i < self@.order.len() ==> {
                    &&& self.ring_next(#[trigger] self@.order[i]) == self@.order[next_place(
                        i,
                        self@.order.len() as int,
                    )]
                    &&& self.ring_prev(self@.order[i]) == self@.order[prev_place(
                        i,
                        self@.order.len() as int,
                    )]
                },
            forall|steps: nat|
                0 < steps <= self@.order.len() ==> #[trigger] self.walk(steps)
                    == self@.order[steps - 1],
            self@.order.len() > 0 ==> self.walk(0) == self@.order.last(),
    {
        let order = self.order@;
        let n = order.len() as int;
        assert forall|i: int| 0 <= i < n implies {
            &&& self.ring_next(#[trigger] order[i]) == order[next_place(i, n)]
            &&& self.ring_prev(order[i]) == order[prev_place(i, n)]
        } by {
            assert(self.entries@[order[i]].newer == order[next_place(i, n)]);
        }
        assert forall|steps: nat| 0 < steps <= n implies #[trigger] self.walk(steps) == order[steps
            - 1] by {
            self.lemma_walk_place(steps);
        }
        if n > 0 {
            self.lemma_walk_place(0);
        }
    }

    /// The content decides the links: two well-formed caches with the same
    /// order of keys have the same newest key and give every key the same
    /// neighbours.
    pub proof fn lemma_order_decides_links(&self, other: &Self)
        requires
            self.wf(),
            other.wf(),
            self@.order == other@.order,
        ensures
            self.newest_key() == other.newest_key(),
            forall|k: K| #[trigger]
                self@.slots.contains_key(k) ==> {
                    &&& self.ring_next(k) == other.ring_next(k)
                    &&& self.ring_prev(k) == other.ring_prev(k)
                },
    {
        self.lemma_ring_follows_order();
        other.lemma_ring_follows_order();
        assert forall|k: K| #[trigger] self@.slots.contains_key(k) implies {
            &&& self.ring_next(k) == other.ring_next(k)
            &&& self.ring_prev(k) == other.ring_prev(k)
        } by {
            assert(self.order@.contains(k));
            let i = self.order@.index_of(k);
            assert(self@.order[i] == k && other@.order[i] == k);
        }
    }

    /// A well-formed cache has a valid content, and names as its newest key
    /// the last key of the order. In particular a cache made with a size
    /// bound never holds more items than the bound.
    pub proof fn lemma_content_valid(&self)
        requires
            self.wf(),
        ensures
            self@.valid(),
            self.newest_key() == self@.newest(),
            self@.slots.dom().finite(),
            self@.slots.dom().len() == self@.order.len(),
            self@.limits.max_items matches Some(m) ==> self@.slots.dom().len() <= m,
    {
        self.lemma_count();
        assert(self@.slots.dom() =~= self.entries@.dom());
    }

    /// Ring integrity. For every key that a well-formed cache holds, both
    /// neighbours are held too, and stepping to one neighbour and back
    /// returns to the key. A walk from the newest key, always to the newer
    /// neighbour, visits every key exactly once in as many steps as there are
    /// keys, and then stands on the newest key again.
    pub proof fn lemma_ring_integrity(&self)
        requires
            self.wf(),
        ensures
            forall|k: K| #[trigger]
                self@.slots.contains_key(k) ==> {
                    &&& self@.slots.contains_key(self.ring_next(k))
                    &&& self@.slots.contains_key(self.ring_prev(k))
                    &&& self.ring_next(self.ring_prev(k)) == k
                    &&& self.ring_prev(self.ring_next(k)) == k
                },
            forall|steps: nat|
                steps < self@.order.len() ==> self@.slots.contains_key(#[trigger] self.walk(steps)),
            forall|k: K| #[trigger]
                self@.slots.contains_key(k) ==> exists|steps: nat|
                    steps < self@.order.len() && #[trigger] self.walk(steps) == k,
            forall|i: nat, j: nat|
                i < j < self@.order.len() ==> #[trigger] self.walk(i) != #[trigger] self.walk(j),
            self@.order.len() > 0 ==> self.walk(self@.order.len()) == self.walk(0),
    {
        let order = self.order@;
        let n = order.len() as int;
        assert forall|k: K| #[trigger] self@.slots.contains_key(k) implies {
            &&& self@.slots.contains_key(self.ring_next(k))
            &&& self@.slots.contains_key(self.ring_prev(k))
            &&& self.ring_next(self.ring_prev(k)) == k
            &&& self.ring_prev(self.ring_next(k)) == k
        } by {
            assert(order.contains(k));
            let i = order.index_of(k);
            let up = next_place(i, n);
            let down = prev_place(i, n);
            assert(self.entries@[order[i]].newer == order[up]);
            assert(self.entries@[order[up]].older == order[prev_place(up, n)]);
            assert(self.entries@[order[down]].newer == order[next_place(down, n)]);
            assert(order.contains(order[up]) && order.contains(order[down]));
        }
        assert forall|steps: nat| steps < n implies self@.slots.contains_key(
            #[trigger] self.walk(steps),
        ) by {
            self.lemma_walk_place(steps);
            let at = if steps == 0 {
                n - 1
            } else {
                steps - 1
            };
            assert(order.contains(order[at]));
        }
        assert forall|k: K| #[trigger] self@.slots.contains_key(k) implies exists|steps: nat|
            steps < n && #[trigger] self.walk(steps) == k by {
            assert(order.contains(k));
            let i = order.index_of(k);
            let steps: nat = if i == n - 1 {
                0
            } else {
                (i + 1) as nat
            };
            self.lemma_walk_place(steps);
            assert(self.walk(steps) == k);
        }
        assert forall|i: nat, j: nat| i < j < n implies #[trigger] self.walk(i) != #[trigger] self.walk(
            j,
        ) by {
            self.lemma_walk_place(i);
            self.lemma_walk_place(j);
        }
        if n > 0 {
            self.lemma_walk_place(n as nat);
            self.lemma_walk_place(0);
        }
    }

}

} // verus!
