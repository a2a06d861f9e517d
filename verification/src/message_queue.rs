//! Message queue
//!
//! A queue is a tree of places named by paths. A message sent to a path is
//! kept at the path's place and at every place above it, so that a reader at
//! a place sees the traffic of everything below. Each place keeps a bounded
//! first-in-first-out list of messages and a list of those who wait there for
//! the next message.

use crate::config::MessageQueueConfig;
use crate::helpers::cursor::lemma_cursor_excludes;
use crate::helpers::cursor::lemma_newest_of;
use crate::helpers::cursor::newest_of;
use crate::helpers::cursor::owed_after;
use crate::helpers::cursor::Identified;
use crate::helpers::id_text::format_id;
use crate::helpers::id_text::hex_text;
use crate::helpers::id_text::parse_id;
use crate::helpers::id_text::parse_id_text;
use crate::helpers::id_text::ParseIdError;
use crate::helpers::path_tree::path_view;
use crate::helpers::path_tree::Blank;
use crate::helpers::path_tree::PathTree;
use crate::helpers::retention::in_time_order;
use crate::helpers::retention::is_stale;
use crate::helpers::retention::leading_stale;
use crate::helpers::retention::lemma_fresh_behind_front;
use crate::helpers::retention::lemma_leading_stale;
use crate::helpers::retention::stale;
use crate::helpers::retention::stamp_after;
use crate::helpers::retention::stamped;
use crate::helpers::retention::surplus;
use crate::helpers::retention::Stamped;
use crate::helpers::system::random_u128;
use crate::helpers::system::share;
use crate::helpers::system::utc_now_micros;
use std::collections::VecDeque;
use std::sync::Arc;
use vstd::prelude::*;

verus! {

/// Handles message ID creation, storage and formatting
#[derive(Copy, Clone, Debug, PartialEq, Eq, Structural)]
pub struct MessageID {
    id: u128,
}

impl MessageID {
    /// The identifier as a number.
    pub closed spec fn value(&self) -> u128 {
        self.id
    }

    /// An identifier is its number: two identifiers with the same number
    /// are the same identifier.
    pub proof fn lemma_number_decides(self, other: Self)
        ensures
            self.value() == other.value() <==> self == other,
    {
    }

    /// The reserved identifier that names no message.
    pub fn none() -> (reserved: Self)
        ensures
            reserved.value() == 0,
    {
        Self { id: 0 }
    }

    /// A fresh random identifier.
    pub fn new() -> (fresh: Self) {
        Self { id: random_u128() }
    }

    /// The identifier with the given number.
    pub fn from_u128(id: u128) -> (made: Self)
        ensures
            made.value() == id,
    {
        Self { id }
    }

    /// The identifier as a number.
    pub fn as_u128(&self) -> (id: u128)
        ensures
            id == self.value(),
    {
        self.id
    }

    /// The identifier as 32 lowercase hexadecimal digits.
    pub fn to_string(&self) -> (text: String)
        ensures
            text@ == hex_text(self.value()),
    {
        format_id(self.id)
    }

    /// Reads an identifier from hexadecimal digits; see `parse_id`.
    pub fn parse(text: &str) -> (parsed: Result<Self, ParseIdError>)
        ensures
            match parsed {
                Ok(id) => parse_id(text@) == Ok::<nat, ParseIdError>(id.value() as nat),
                Err(e) => parse_id(text@) == Err::<nat, ParseIdError>(e),
            },
    {
        match parse_id_text(text) {
            Ok(id) => Ok(Self { id }),
            Err(e) => Err(e),
        }
    }
}

/// Used to store a message and its associated metadata
pub struct Message<T> {
    /// The message
    pub message: T,
    /// The path of the message
    pub path: Vec<String>,
    /// The time at which the message was sent (server time), in microseconds
    /// since the Unix epoch
    pub timestamp: i64,
    /// Message ID
    pub message_id: MessageID,
}

impl<T> Identified for Arc<Message<T>> {
    open spec fn ident(&self) -> u128 {
        self.message_id.value()
    }

    fn identifier(&self) -> (id: u128) {
        self.message_id.as_u128()
    }
}

impl<T> Stamped for Arc<Message<T>> {
    open spec fn stamp(&self) -> i64 {
        self.timestamp
    }

    fn timestamp(&self) -> (micros: i64) {
        self.timestamp
    }
}

/// What a place keeps of `fifo` at `now`: the oldest messages over the
/// count limit go, and then the stale messages in front of the oldest
/// message that is still fresh.
pub open spec fn retained<T>(
    fifo: Seq<Arc<Message<T>>>,
    limit: Option<u64>,
    expiry: Option<u64>,
    now: i64,
) -> Seq<Arc<Message<T>>> {
    let rest = fifo.skip(surplus(fifo.len(), limit));
    rest.skip(leading_stale(rest, expiry, now))
}

/// What a reader who has seen the message `cursor` is still owed of `fifo`:
/// the messages after the newest one with that identifier. A reader without
/// a cursor, or with one that `fifo` does not hold, is owed all of it.
pub open spec fn after_cursor<T>(fifo: Seq<Arc<Message<T>>>, cursor: Option<MessageID>) -> Seq<
    Arc<Message<T>>,
> {
    owed_after(
        fifo,
        match cursor {
            Some(id) => Some(id.value()),
            None => None,
        },
    )
}

/// Cursor idempotence. A reader who names a message as seen is not handed a
/// message with that identifier again, whatever the place holds by then.
pub proof fn lemma_cursor_idempotence<T>(fifo: Seq<Arc<Message<T>>>, seen: MessageID)
    ensures
        forall|i: int|
            0 <= i < after_cursor(fifo, Some(seen)).len() ==> (#[trigger] after_cursor(
                fifo,
                Some(seen),
            )[i]).message_id != seen,
{
    lemma_cursor_excludes(fifo, seen.value());
}

/// What a place keeps is the end of what it had, within the count limit.
/// Where the newest message is fresh and the limit is not zero, the newest
/// message is kept.
pub proof fn lemma_retained<T>(
    fifo: Seq<Arc<Message<T>>>,
    limit: Option<u64>,
    expiry: Option<u64>,
    now: i64,
)
    ensures
        retained(fifo, limit, expiry, now).len() <= fifo.len(),
        limit matches Some(most) ==> retained(fifo, limit, expiry, now).len() <= most,
        retained(fifo, limit, expiry, now) == fifo.skip(
            fifo.len() - retained(fifo, limit, expiry, now).len(),
        ),
        fifo.len() > 0 && limit != Some(0u64) && !is_stale(fifo.last().timestamp, expiry, now) ==> {
            &&& retained(fifo, limit, expiry, now).len() > 0
            &&& retained(fifo, limit, expiry, now).last() == fifo.last()
        },
{
    let rest = fifo.skip(surplus(fifo.len(), limit));
    lemma_leading_stale(rest, expiry, now);
    let kept = rest.skip(leading_stale(rest, expiry, now));
    assert(kept =~= fifo.skip(fifo.len() - kept.len()));
    if fifo.len() > 0 && limit != Some(0u64) && !is_stale(fifo.last().timestamp, expiry, now) {
        assert(rest.len() > 0);
        assert(rest[rest.len() - 1] == fifo.last());
        assert(leading_stale(rest, expiry, now) < rest.len());
    }
}

/// The messages are in the order of their times, and none is later than
/// `newest`, the latest time that the queue has given to a message.
pub open spec fn in_time<T>(messages: Seq<Arc<Message<T>>>, newest: Option<i64>) -> bool {
    &&& in_time_order(messages)
    &&& forall|i: int|
        0 <= i < messages.len() ==> newest is Some && (#[trigger] messages[i]).timestamp
            <= newest.unwrap()
}

/// What a place keeps of a list in time order is in time order.
pub proof fn lemma_retained_in_time<T>(
    messages: Seq<Arc<Message<T>>>,
    newest: Option<i64>,
    limit: Option<u64>,
    expiry: Option<u64>,
    now: i64,
)
    requires
        in_time(messages, newest),
    ensures
        in_time(retained(messages, limit, expiry, now), newest),
{
    lemma_retained(messages, limit, expiry, now);
    let kept = retained(messages, limit, expiry, now);
    let gone = messages.len() - kept.len();
    assert forall|i: int| 0 <= i < kept.len() implies #[trigger] kept[i] == messages[i + gone] by {}
    assert forall|i: int, j: int| 0 <= i <= j < kept.len() implies (#[trigger] kept[i]).stamp() <= (
    #[trigger] kept[j]).stamp() by {
        assert(messages[i + gone].stamp() <= messages[j + gone].stamp());
    }
    assert forall|i: int| 0 <= i < kept.len() implies newest is Some && (
    #[trigger] kept[i]).timestamp <= newest.unwrap() by {
        assert(messages[i + gone].timestamp == kept[i].timestamp);
    }
}

/// A message that is stamped no earlier than the latest time so far goes
/// behind a list in time order and keeps it so.
pub proof fn lemma_push_in_time<T>(
    messages: Seq<Arc<Message<T>>>,
    newest: Option<i64>,
    message: Arc<Message<T>>,
)
    requires
        in_time(messages, newest),
        newest matches Some(latest) ==> latest <= message.timestamp,
    ensures
        in_time(messages.push(message), Some(message.timestamp)),
        in_time(messages, Some(message.timestamp)),
{
    let pushed = messages.push(message);
    assert forall|i: int, j: int| 0 <= i <= j < pushed.len() implies (#[trigger] pushed[i]).stamp()
        <= (#[trigger] pushed[j]).stamp() by {
        if j < messages.len() {
            assert(messages[i].stamp() <= messages[j].stamp());
        } else if i < messages.len() {
            assert(messages[i].timestamp <= message.timestamp);
        }
    }
    assert forall|i: int| 0 <= i < pushed.len() implies (#[trigger] pushed[i]).timestamp
        <= message.timestamp by {
        if i < messages.len() {
            assert(messages[i].timestamp <= message.timestamp);
        }
    }
    assert forall|i: int| 0 <= i < messages.len() implies (#[trigger] messages[i]).timestamp
        <= message.timestamp by {
        assert(pushed[i] == messages[i]);
    }
}

/// What a place keeps at `now` of a list in time order holds no message
/// that is stale at `now`, and no more messages than the limit.
pub proof fn lemma_retained_is_fresh<T>(
    messages: Seq<Arc<Message<T>>>,
    limit: Option<u64>,
    expiry: Option<u64>,
    now: i64,
)
    requires
        in_time_order(messages),
    ensures
        limit matches Some(most) ==> retained(messages, limit, expiry, now).len() <= most,
        forall|i: int|
            0 <= i < retained(messages, limit, expiry, now).len() ==> !is_stale(
                (#[trigger] retained(messages, limit, expiry, now)[i]).timestamp,
                expiry,
                now,
            ),
{
    lemma_retained(messages, limit, expiry, now);
    let rest = messages.skip(surplus(messages.len(), limit));
    assert forall|i: int, j: int| 0 <= i <= j < rest.len() implies (#[trigger] rest[i]).stamp() <= (
    #[trigger] rest[j]).stamp() by {
        let gone = surplus(messages.len(), limit);
        assert(messages[i + gone].stamp() <= messages[j + gone].stamp());
    }
    lemma_fresh_behind_front(rest, expiry, now);
}

/// What a place of the queue holds.
struct QueueNode<T, W> {
    /// List of subscriptions to this path
    subscriptions: Vec<W>,
    /// Queue of the most recently sent messages
    messages: VecDeque<Arc<Message<T>>>,
}

impl<T, W> Blank for QueueNode<T, W> {
    closed spec fn is_blank(&self) -> bool {
        self.subscriptions@.len() == 0 && self.messages@.len() == 0
    }

    fn blank() -> (fresh: Self) {
        QueueNode { subscriptions: Vec::new(), messages: VecDeque::new() }
    }
}

/// Cuts a place's list down to what it keeps at `now`.
fn trim<T>(
    messages: &mut VecDeque<Arc<Message<T>>>,
    limit: Option<u64>,
    expiry: Option<u64>,
    now: i64,
)
    ensures
        final(messages)@ == retained(old(messages)@, limit, expiry, now),
{
    let ghost fifo = messages@;
    let ghost dropped = 0int;
    proof {
        assert(fifo.skip(0) =~= fifo);
    }
    if let Some(most) = limit {
        while messages.len() as u64 > most
            invariant
                0 <= dropped <= surplus(fifo.len(), limit),
                limit == Some(most),
                messages@ == fifo.skip(dropped),
            decreases messages@.len(),
        {
            let _ = messages.pop_front();
            proof {
                assert(fifo.skip(dropped).skip(1) =~= fifo.skip(dropped + 1));
                dropped = dropped + 1;
            }
        }
    }
    let ghost rest = messages@;
    let ghost gone = 0int;
    proof {
        assert(rest.skip(0) =~= rest);
    }
    while messages.len() > 0
        invariant_except_break
            0 <= gone <= rest.len(),
            messages@ == rest.skip(gone),
            leading_stale(rest, expiry, now) == gone + leading_stale(messages@, expiry, now),
        ensures
            messages@ == rest.skip(leading_stale(rest, expiry, now)),
        decreases messages@.len(),
    {
        let ghost left = messages@;
        if !stale(messages[0].timestamp, expiry, now) {
            assert(leading_stale(left, expiry, now) == 0);
            break ;
        }
        assert(leading_stale(left, expiry, now) == 1 + leading_stale(left.skip(1), expiry, now));
        let _ = messages.pop_front();
        proof {
            assert(rest.skip(gone).skip(1) =~= rest.skip(gone + 1));
            gone = gone + 1;
        }
    }
}

/// The messages of `fifo` that a reader with `cursor` is still owed.
fn newer_than<T>(fifo: &VecDeque<Arc<Message<T>>>, cursor: &Option<MessageID>) -> (owed: Vec<
    Arc<Message<T>>,
>)
    ensures
        owed@ == after_cursor(fifo@, *cursor),
{
    let mut start: usize = 0;
    if let Some(seen) = cursor {
        // message list is a queue with more recent messages at the back
        let ghost id = seen.value();
        let mut at: usize = fifo.len();
        proof {
            assert(fifo@.take(at as int) =~= fifo@);
        }
        while at > 0
            invariant_except_break
                at <= fifo.len(),
                start == 0,
                id == seen.value(),
                newest_of(fifo@, id) == newest_of(fifo@.take(at as int), id),
            ensures
                start == newest_of(fifo@, id) + 1,
            decreases at,
        {
            let ghost head = fifo@.take(at as int);
            proof {
                assert(head.last() == fifo@[at - 1]);
                assert(head.drop_last() =~= fifo@.take(at - 1));
            }
            if fifo[at - 1].message_id == *seen {
                // we're on the last message, don't return it or earlier ones
                start = at;
                break ;
            }
            at = at - 1;
        }
        proof {
            lemma_newest_of(fifo@, id);
        }
    }
    let mut owed: Vec<Arc<Message<T>>> = Vec::new();
    let mut next: usize = start;
    proof {
        assert(owed@ =~= fifo@.subrange(start as int, start as int));
    }
    while next < fifo.len()
        invariant
            start <= next <= fifo.len(),
            owed@ == fifo@.subrange(start as int, next as int),
        decreases fifo.len() - next,
    {
        owed.push(share(&fifo[next]));
        proof {
            assert(owed@ =~= fifo@.subrange(start as int, next + 1));
        }
        next = next + 1;
    }
    proof {
        assert(fifo@.subrange(start as int, fifo@.len() as int) =~= fifo@.skip(start as int));
    }
    owed
}

/// Moves those who wait at a place to the end of `out`, last come first.
fn drain<W>(subscriptions: &mut Vec<W>, out: &mut Vec<W>)
    ensures
        final(subscriptions)@.len() == 0,
        final(out)@ == old(out)@ + old(subscriptions)@.reverse(),
{
    let ghost waiting = subscriptions@;
    let ghost before = out@;
    while subscriptions.len() > 0
        invariant
            subscriptions@.len() <= waiting.len(),
            subscriptions@ == waiting.take(subscriptions@.len() as int),
            out@ == before + waiting.skip(subscriptions@.len() as int).reverse(),
        decreases subscriptions@.len(),
    {
        let ghost left = subscriptions@.len() as int;
        let subscription = subscriptions.pop().unwrap();
        out.push(subscription);
        proof {
            assert(subscriptions@ =~= waiting.take(left - 1));
            assert(out@ =~= before + waiting.skip(left - 1).reverse());
        }
    }
    proof {
        assert(waiting.skip(0) =~= waiting);
    }
}

/// What a send hands back: the message as the queue keeps it, and those who
/// waited for it, to be told.
pub struct Delivery<T, W> {
    pub message: Arc<Message<T>>,
    pub subscriptions: Vec<W>,
}

/// What a receiver gets at once.
pub enum Reception<T, W> {
    /// Messages were owed: here they are, with the receiver's subscription
    /// handed back unused.
    Ready { messages: Vec<Arc<Message<T>>>, subscription: W },
    /// Nothing was owed: the subscription waits at the path for the next
    /// message.
    Waiting,
}

/// Message queue: the tree of subscriptions and sent messages, as the thread
/// that owns the queue keeps it. `W` is what stands for a waiting receiver.
pub struct MessageQueue<T, W> {
    /// Configuration object
    config: MessageQueueConfig,
    /// Tree of subscriptions and sent messages
    subscription_tree: PathTree<QueueNode<T, W>>,
    /// The latest time that a message was given, None before the first
    newest_time: Option<i64>,
}

impl<T, W> MessageQueue<T, W> {
    /// The tree of places is well formed.
    spec fn linked(&self) -> bool {
        self.subscription_tree.wf()
    }

    /// Every place holds its messages in the order of their times, none
    /// later than the latest time given.
    spec fn timed(&self) -> bool {
        forall|id: int|
            self.subscription_tree.has_node(id) ==> in_time(
                (#[trigger] self.subscription_tree.data_of(id)).messages@,
                self.newest_time,
            )
    }

    /// The queue is well formed: the tree of places is, and the messages of
    /// every place are in the order of their times.
    pub closed spec fn wf(&self) -> bool {
        &&& self.linked()
        &&& self.timed()
    }

    /// The latest time that the queue has given to a message, None before
    /// the first message.
    pub closed spec fn newest_time(&self) -> Option<i64> {
        self.newest_time
    }

    /// How many messages a place keeps at most.
    pub closed spec fn limit(&self) -> Option<u64> {
        self.config.message_limit
    }

    /// For how many seconds a message is kept.
    pub closed spec fn expiry(&self) -> Option<u64> {
        self.config.message_expiry
    }

    /// The messages kept at `place`, oldest first.
    pub closed spec fn messages_at(&self, place: Seq<Seq<char>>) -> Seq<Arc<Message<T>>> {
        match self.subscription_tree.data_at(place) {
            Some(node) => node.messages@,
            None => Seq::empty(),
        }
    }

    /// Those who wait at `place`, in the order in which they came.
    pub closed spec fn waiting_at(&self, place: Seq<Seq<char>>) -> Seq<W> {
        match self.subscription_tree.data_at(place) {
            Some(node) => node.subscriptions@,
            None => Seq::empty(),
        }
    }

    /// Those who wait at the first `depth` segments of `path` and at every
    /// place above: the deepest place first, and of each place the last come
    /// first.
    pub open spec fn drained(&self, path: Seq<Seq<char>>, depth: int) -> Seq<W>
        decreases depth + 1,
    {
        if depth < 0 {
            Seq::empty()
        } else {
            self.waiting_at(path.take(depth)).reverse() + self.drained(path, depth - 1)
        }
    }

    /// The two queues have the same bounds.
    pub open spec fn same_bounds(&self, other: &Self) -> bool {
        self.limit() == other.limit() && self.expiry() == other.expiry()
    }

    /// `after` is `before` once `message` was sent to `path` at `now`: the
    /// places from the root down to `path` have the message as their newest
    /// and keep what their bounds allow, and nobody waits there any more; the
    /// other places are as they were.
    pub open spec fn is_send(
        before: &Self,
        after: &Self,
        path: Seq<Seq<char>>,
        message: Arc<Message<T>>,
        now: i64,
    ) -> bool {
        &&& after.same_bounds(before)
        &&& after.newest_time() == Some(message.timestamp)
        &&& forall|place: Seq<Seq<char>>| #[trigger]
            after.messages_at(place) == if place.is_prefix_of(path) {
                retained(
                    before.messages_at(place).push(message),
                    before.limit(),
                    before.expiry(),
                    now,
                )
            } else {
                before.messages_at(place)
            }
        &&& forall|place: Seq<Seq<char>>| #[trigger]
            after.waiting_at(place) == if place.is_prefix_of(path) {
                Seq::empty()
            } else {
                before.waiting_at(place)
            }
    }

    /// `after` is `before` once `path` was read at `now`: the place keeps
    /// what its bounds allow at `now`, and nothing else changes.
    pub open spec fn is_read(before: &Self, after: &Self, path: Seq<Seq<char>>, now: i64) -> bool {
        &&& after.same_bounds(before)
        &&& after.newest_time() == before.newest_time()
        &&& forall|place: Seq<Seq<char>>| #[trigger]
            after.messages_at(place) == if place == path {
                retained(before.messages_at(place), before.limit(), before.expiry(), now)
            } else {
                before.messages_at(place)
            }
        &&& forall|place: Seq<Seq<char>>| #[trigger]
            after.waiting_at(place) == before.waiting_at(place)
    }

    /// The messages at `path` that a reader with `cursor` is owed at `now`.
    pub open spec fn owed(&self, path: Seq<Seq<char>>, cursor: Option<MessageID>, now: i64) -> Seq<
        Arc<Message<T>>,
    > {
        after_cursor(retained(self.messages_at(path), self.limit(), self.expiry(), now), cursor)
    }

    /// The nodes at depth `todo` and below on the way to `wanted` have got
    /// the message; every other node is as in `base`.
    spec fn sent_below(
        &self,
        base: &Self,
        wanted: Seq<Seq<char>>,
        todo: int,
        message: Arc<Message<T>>,
        now: i64,
    ) -> bool {
        forall|id: int|
            self.subscription_tree.has_node(id) ==> {
                let place = self.subscription_tree.path_of(id);
                let mine = #[trigger] self.subscription_tree.data_of(id);
                let former = base.subscription_tree.data_of(id);
                if place.is_prefix_of(wanted) && place.len() >= todo {
                    &&& mine.messages@ == retained(
                        former.messages@.push(message),
                        base.limit(),
                        base.expiry(),
                        now,
                    )
                    &&& mine.subscriptions@.len() == 0
                } else {
                    mine == former
                }
            }
    }

    proof fn lemma_place(&self, id: int)
        requires
            self.linked(),
            self.subscription_tree.has_node(id),
        ensures
            self.messages_at(self.subscription_tree.path_of(id)) == self.subscription_tree.data_of(
                id,
            ).messages@,
            self.waiting_at(self.subscription_tree.path_of(id)) == self.subscription_tree.data_of(
                id,
            ).subscriptions@,
    {
        self.subscription_tree.lemma_structure();
    }

    proof fn lemma_grown_at(&self, grown: &Self, path: Seq<Seq<char>>, place: Seq<Seq<char>>)
        requires
            self.linked(),
            grown.linked(),
            self.subscription_tree.extended_by(&grown.subscription_tree),
            grown.subscription_tree.blank_from(self.subscription_tree.node_count(), path),
        ensures
            grown.messages_at(place) == self.messages_at(place),
            grown.waiting_at(place) == self.waiting_at(place),
    {
        self.subscription_tree.lemma_grown(&grown.subscription_tree, path, place);
        if self.subscription_tree.data_at(place) is None {
            assert(grown.messages_at(place) =~= Seq::empty());
            assert(grown.waiting_at(place) =~= Seq::empty());
        }
    }

    /// A tree grown by blank nodes shows the same queue.
    proof fn lemma_grown(&self, grown: &Self, path: Seq<Seq<char>>)
        requires
            self.linked(),
            grown.linked(),
            self.subscription_tree.extended_by(&grown.subscription_tree),
            grown.subscription_tree.blank_from(self.subscription_tree.node_count(), path),
        ensures
            forall|place: Seq<Seq<char>>| #[trigger]
                grown.messages_at(place) == self.messages_at(place),
            forall|place: Seq<Seq<char>>| #[trigger]
                grown.waiting_at(place) == self.waiting_at(place),
    {
        assert forall|place: Seq<Seq<char>>| #[trigger]
            grown.messages_at(place) == self.messages_at(place) by {
            self.lemma_grown_at(grown, path, place);
        }
        assert forall|place: Seq<Seq<char>>| #[trigger]
            grown.waiting_at(place) == self.waiting_at(place) by {
            self.lemma_grown_at(grown, path, place);
        }
    }

    proof fn lemma_sent_at(
        &self,
        former: &Self,
        base: &Self,
        wanted: Seq<Seq<char>>,
        message: Arc<Message<T>>,
        now: i64,
        place: Seq<Seq<char>>,
    )
        requires
            self.linked(),
            base.linked(),
            self.same_bounds(base),
            base.same_bounds(former),
            self.subscription_tree.same_shape(&base.subscription_tree),
            base.subscription_tree.has_path(wanted),
            self.sent_below(base, wanted, 0, message, now),
            base.messages_at(place) == former.messages_at(place),
            base.waiting_at(place) == former.waiting_at(place),
        ensures
            self.messages_at(place) == if place.is_prefix_of(wanted) {
                retained(
                    former.messages_at(place).push(message),
                    former.limit(),
                    former.expiry(),
                    now,
                )
            } else {
                former.messages_at(place)
            },
            self.waiting_at(place) == if place.is_prefix_of(wanted) {
                Seq::<W>::empty()
            } else {
                former.waiting_at(place)
            },
    {
        let tree = self.subscription_tree;
        let old_tree = base.subscription_tree;
        tree.lemma_structure();
        old_tree.lemma_structure();
        if place.is_prefix_of(wanted) {
            let end = old_tree.id_of(wanted);
            old_tree.lemma_prefix_closed(end, place.len() as int);
            assert(wanted.take(place.len() as int) =~= place);
        }
        if old_tree.has_path(place) {
            let id = old_tree.id_of(place);
            assert(tree.has_node(id) && tree.path_of(id) == place);
            self.lemma_place(id);
            base.lemma_place(id);
            assert(self.subscription_tree.data_of(id) == tree.data_of(id));
            if place.is_prefix_of(wanted) {
                assert(self.waiting_at(place) =~= Seq::<W>::empty());
            }
        } else {
            if tree.has_path(place) {
                let id = tree.id_of(place);
                assert(old_tree.has_node(id) && old_tree.path_of(id) == place);
            }
        }
    }

    /// Once every node on the way to `wanted` has got the message, the queue
    /// is what a send makes of `former`.
    proof fn lemma_sent(
        &self,
        former: &Self,
        base: &Self,
        wanted: Seq<Seq<char>>,
        message: Arc<Message<T>>,
        now: i64,
    )
        requires
            self.linked(),
            base.linked(),
            self.same_bounds(base),
            base.same_bounds(former),
            self.subscription_tree.same_shape(&base.subscription_tree),
            base.subscription_tree.has_path(wanted),
            self.sent_below(base, wanted, 0, message, now),
            self.newest_time() == Some(message.timestamp),
            forall|place: Seq<Seq<char>>| #[trigger]
                base.messages_at(place) == former.messages_at(place),
            forall|place: Seq<Seq<char>>| #[trigger]
                base.waiting_at(place) == former.waiting_at(place),
        ensures
            Self::is_send(former, self, wanted, message, now),
    {
        assert forall|place: Seq<Seq<char>>| #[trigger]
            self.messages_at(place) == if place.is_prefix_of(wanted) {
                retained(
                    former.messages_at(place).push(message),
                    former.limit(),
                    former.expiry(),
                    now,
                )
            } else {
                former.messages_at(place)
            } by {
            assert(base.messages_at(place) == former.messages_at(place));
            assert(base.waiting_at(place) == former.waiting_at(place));
            self.lemma_sent_at(former, base, wanted, message, now, place);
        }
        assert forall|place: Seq<Seq<char>>| #[trigger]
            self.waiting_at(place) == if place.is_prefix_of(wanted) {
                Seq::<W>::empty()
            } else {
                former.waiting_at(place)
            } by {
            assert(base.messages_at(place) == former.messages_at(place));
            assert(base.waiting_at(place) == former.waiting_at(place));
            self.lemma_sent_at(former, base, wanted, message, now, place);
        }
    }

    /// Sets up a queue that holds nothing.
    pub fn new(config: MessageQueueConfig) -> (queue: Self)
        ensures
            queue.wf(),
            queue.limit() == config.message_limit,
            queue.expiry() == config.message_expiry,
            queue.newest_time() is None,
            forall|place: Seq<Seq<char>>| #[trigger] queue.messages_at(place).len() == 0,
            forall|place: Seq<Seq<char>>| #[trigger] queue.waiting_at(place).len() == 0,
    {
        let queue = MessageQueue {
            config,
            subscription_tree: PathTree::new(QueueNode::blank()),
            newest_time: None,
        };
        proof {
            queue.subscription_tree.lemma_structure();
            assert forall|place: Seq<Seq<char>>|
                #[trigger] queue.messages_at(place).len() == 0 && queue.waiting_at(place).len()
                    == 0 by {
                if queue.subscription_tree.has_path(place) {
                    assert(queue.subscription_tree.id_of(place) == 0);
                }
            }
        }
        queue
    }

    /// Sends `message` to `path` under the identifier given, at the time
    /// `now`. The message is stamped with `now`, or with the latest time
    /// given so far where that is later, so that the time of the queue never
    /// runs backwards. It is kept at the path's place and at every place
    /// above, and those who wait at these places are handed back to be told
    /// of it.
    pub fn send_message(
        &mut self,
        path: Vec<String>,
        message: T,
        message_id: MessageID,
        now: i64,
    ) -> (delivery: Delivery<T, W>)
        requires
            old(self).wf(),
        ensures
            final(self).wf(),
            delivery.message.message == message,
            delivery.message.path == path,
            delivery.message.timestamp == stamped(old(self).newest_time(), now),
            delivery.message.message_id == message_id,
            Self::is_send(
                old(self),
                final(self),
                path_view(path@),
                delivery.message,
                delivery.message.timestamp,
            ),
            delivery.subscriptions@ == old(self).drained(
                path_view(path@),
                path_view(path@).len() as int,
            ),
    {
        let ghost wanted = path_view(path@);
        let limit = self.config.message_limit;
        let expiry = self.config.message_expiry;
        let timestamp = stamp_after(self.newest_time, now);
        let end = self.subscription_tree.ensure(&path);
        let ghost base = *self;
        let message = Arc::new(Message { message, path, timestamp, message_id });
        let mut subscriptions: Vec<W> = Vec::new();
        let mut cursor: Option<usize> = Some(end);
        let ghost mut todo: int = wanted.len() as int + 1;
        proof {
            old(self).lemma_grown(&base, wanted);
            assert(wanted.take(wanted.len() as int) =~= wanted);
            assert(old(self).drained(wanted, wanted.len() as int) =~= subscriptions@ + old(
                self,
            ).drained(wanted, todo - 1));
        }
        while cursor.is_some()
            invariant
                self.linked(),
                base.linked(),
                self.config == base.config,
                limit == base.limit(),
                expiry == base.expiry(),
                self.subscription_tree.same_shape(&base.subscription_tree),
                0 <= todo <= wanted.len() + 1,
                cursor is Some <==> todo > 0,
                cursor matches Some(at) ==> self.subscription_tree.has_node(at as int)
                    && self.subscription_tree.path_of(at as int) == wanted.take(todo - 1),
                self.sent_below(&base, wanted, todo, message, timestamp),
                forall|place: Seq<Seq<char>>| #[trigger]
                    base.waiting_at(place) == old(self).waiting_at(place),
                old(self).drained(wanted, wanted.len() as int) == subscriptions@ + old(
                    self,
                ).drained(wanted, todo - 1),
            decreases todo,
        {
            let at = cursor.unwrap();
            let ghost before = *self;
            let ghost place = wanted.take(todo - 1);
            proof {
                self.subscription_tree.lemma_structure();
                base.lemma_place(at as int);
                assert(self.subscription_tree.data_of(at as int) == base.subscription_tree.data_of(
                    at as int,
                ));
            }
            let node = self.subscription_tree.data_mut(at);
            // save message
            node.messages.push_back(share(&message));
            trim(&mut node.messages, limit, expiry, timestamp);
            // hand out the subscriptions
            drain(&mut node.subscriptions, &mut subscriptions);
            cursor = self.subscription_tree.parent(at);
            proof {
                if todo > 1 {
                    assert(wanted.take(todo - 1).drop_last() =~= wanted.take(todo - 2));
                }
                assert(self.subscription_tree.same_shape(&before.subscription_tree));
                assert forall|id: int| self.subscription_tree.has_node(id) implies {
                    &&& #[trigger] self.subscription_tree.path_of(id)
                        == base.subscription_tree.path_of(id)
                    &&& self.subscription_tree.parent_of(id) == base.subscription_tree.parent_of(id)
                    &&& self.subscription_tree.children_of(id)
                        == base.subscription_tree.children_of(id)
                } by {
                    assert(before.subscription_tree.path_of(id) == base.subscription_tree.path_of(
                        id,
                    ));
                }
                assert forall|id: int| self.subscription_tree.has_node(id) implies {
                    let place = self.subscription_tree.path_of(id);
                    let mine = #[trigger] self.subscription_tree.data_of(id);
                    let former = base.subscription_tree.data_of(id);
                    if place.is_prefix_of(wanted) && place.len() >= todo - 1 {
                        &&& mine.messages@ == retained(
                            former.messages@.push(message),
                            base.limit(),
                            base.expiry(),
                            timestamp,
                        )
                        &&& mine.subscriptions@.len() == 0
                    } else {
                        mine == former
                    }
                } by {
                    let there = self.subscription_tree.path_of(id);
                    assert(before.subscription_tree.data_of(id) == before.subscription_tree.data_of(
                        id,
                    ));
                    if id != at {
                        assert(self.subscription_tree.data_of(id)
                            == before.subscription_tree.data_of(id));
                        if there.is_prefix_of(wanted) && there.len() == todo - 1 {
                            assert(there =~= wanted.take(todo - 1));
                            assert(before.subscription_tree.path_of(id)
                                == before.subscription_tree.path_of(at as int));
                        }
                    }
                }
                todo = todo - 1;
            }
        }
        self.newest_time = Some(timestamp);
        proof {
            assert(old(self).drained(wanted, -1) =~= Seq::<W>::empty());
            self.lemma_sent(old(self), &base, wanted, message, timestamp);
            assert forall|id: int| self.subscription_tree.has_node(id) implies in_time(
                (#[trigger] self.subscription_tree.data_of(id)).messages@,
                self.newest_time,
            ) by {
                let former = base.subscription_tree.data_of(id).messages@;
                assert(base.subscription_tree.path_of(id) == self.subscription_tree.path_of(id));
                if old(self).subscription_tree.has_node(id) {
                    assert(base.subscription_tree.path_of(id) == old(
                        self,
                    ).subscription_tree.path_of(id));
                    assert(in_time(
                        old(self).subscription_tree.data_of(id).messages@,
                        old(self).newest_time,
                    ));
                } else {
                    assert(base.subscription_tree.data_of(id).is_blank());
                }
                lemma_push_in_time(former, old(self).newest_time, message);
                lemma_retained_in_time(
                    former.push(message),
                    Some(timestamp),
                    limit,
                    expiry,
                    timestamp,
                );
            }
        }
        Delivery { message, subscriptions }
    }

    /// `after` is `before` once `subscription` began to wait at `path` at
    /// `now`: the place keeps what its bounds allow at `now` and has the
    /// subscription as its last come, and nothing else changes.
    pub open spec fn is_wait(
        before: &Self,
        after: &Self,
        path: Seq<Seq<char>>,
        subscription: W,
        now: i64,
    ) -> bool {
        &&& after.same_bounds(before)
        &&& after.newest_time() == before.newest_time()
        &&& forall|place: Seq<Seq<char>>| #[trigger]
            after.messages_at(place) == if place == path {
                retained(before.messages_at(place), before.limit(), before.expiry(), now)
            } else {
                before.messages_at(place)
            }
        &&& forall|place: Seq<Seq<char>>| #[trigger]
            after.waiting_at(place) == if place == path {
                before.waiting_at(place).push(subscription)
            } else {
                before.waiting_at(place)
            }
    }

    /// Where one node changed what it holds, the queue shows the change at
    /// the node's place and nowhere else.
    proof fn lemma_changed(&self, former: &Self, id: int, place: Seq<Seq<char>>)
        requires
            self.linked(),
            former.linked(),
            self.subscription_tree.same_shape(&former.subscription_tree),
            former.subscription_tree.has_node(id),
            forall|other: int|
                former.subscription_tree.has_node(other) && other != id
                    ==> #[trigger] self.subscription_tree.data_of(other)
                    == former.subscription_tree.data_of(other),
        ensures
            place != former.subscription_tree.path_of(id) ==> {
                &&& self.messages_at(place) == former.messages_at(place)
                &&& self.waiting_at(place) == former.waiting_at(place)
            },
            place == former.subscription_tree.path_of(id) ==> {
                &&& self.messages_at(place) == self.subscription_tree.data_of(id).messages@
                &&& self.waiting_at(place) == self.subscription_tree.data_of(id).subscriptions@
                &&& former.messages_at(place) == former.subscription_tree.data_of(id).messages@
                &&& former.waiting_at(place) == former.subscription_tree.data_of(
                    id,
                ).subscriptions@
            },
    {
        self.subscription_tree.lemma_one_changed(&former.subscription_tree, id, place);
    }

    /// Gets any sent messages for the provided path as of `now`: all that the
    /// place keeps, or with a cursor those after the message it names.
    pub fn get_sent_messages(
        &mut self,
        path: &Vec<String>,
        last_message_id: &Option<MessageID>,
        now: i64,
    ) -> (messages: Vec<Arc<Message<T>>>)
        requires
            old(self).wf(),
        ensures
            final(self).wf(),
            Self::is_read(old(self), final(self), path_view(path@), now),
            messages@ == old(self).owed(path_view(path@), *last_message_id, now),
    {
        let ghost wanted = path_view(path@);
        let limit = self.config.message_limit;
        let expiry = self.config.message_expiry;
        match self.subscription_tree.find(path) {
            Some(id) => {
                let node = self.subscription_tree.data_mut(id);
                trim(&mut node.messages, limit, expiry, now);
                let messages = newer_than(&node.messages, last_message_id);
                proof {
                    assert forall|place: Seq<Seq<char>>| #[trigger]
                        self.messages_at(place) == if place == wanted {
                            retained(
                                old(self).messages_at(place),
                                old(self).limit(),
                                old(self).expiry(),
                                now,
                            )
                        } else {
                            old(self).messages_at(place)
                        } by {
                        self.lemma_changed(old(self), id as int, place);
                    }
                    assert forall|place: Seq<Seq<char>>| #[trigger]
                        self.waiting_at(place) == old(self).waiting_at(place) by {
                        self.lemma_changed(old(self), id as int, place);
                    }
                    self.lemma_changed(old(self), id as int, wanted);
                    assert forall|at: int| self.subscription_tree.has_node(at) implies in_time(
                        (#[trigger] self.subscription_tree.data_of(at)).messages@,
                        self.newest_time,
                    ) by {
                        let former = old(self).subscription_tree.data_of(at).messages@;
                        assert(self.subscription_tree.path_of(at) == old(
                            self,
                        ).subscription_tree.path_of(at));
                        assert(in_time(former, old(self).newest_time));
                        lemma_retained_in_time(former, self.newest_time, limit, expiry, now);
                    }
                }
                messages
            },
            None => {
                proof {
                    assert(old(self).messages_at(wanted) =~= Seq::empty());
                    assert(retained(old(self).messages_at(wanted), limit, expiry, now)
                        =~= Seq::empty());
                }
                Vec::new()
            },
        }
    }

    /// Hands out at once what a receiver at `path` is owed as of `now`, or,
    /// where that is nothing, lets the subscription wait at the path.
    pub fn wait_for_messages(
        &mut self,
        path: Vec<String>,
        last_message_id: Option<MessageID>,
        subscription: W,
        now: i64,
    ) -> (reception: Reception<T, W>)
        requires
            old(self).wf(),
        ensures
            final(self).wf(),
            match reception {
                Reception::Ready { messages, subscription: unused } => {
                    &&& messages@.len() > 0
                    &&& messages@ == old(self).owed(path_view(path@), last_message_id, now)
                    &&& unused == subscription
                    &&& Self::is_read(old(self), final(self), path_view(path@), now)
                },
                Reception::Waiting => {
                    &&& old(self).owed(path_view(path@), last_message_id, now).len() == 0
                    &&& Self::is_wait(old(self), final(self), path_view(path@), subscription, now)
                },
            },
    {
        let ghost wanted = path_view(path@);
        // get missed messages
        let missed_messages = self.get_sent_messages(&path, &last_message_id, now);
        // if any missed messages, return them
        if missed_messages.len() > 0 {
            Reception::Ready { messages: missed_messages, subscription }
        } else {
            // else subscribe to that channel
            let ghost read = *self;
            let id = self.subscription_tree.ensure(&path);
            let ghost grown = *self;
            let node = self.subscription_tree.data_mut(id);
            node.subscriptions.push(subscription);
            proof {
                assert forall|at: int| self.subscription_tree.has_node(at) implies in_time(
                    (#[trigger] self.subscription_tree.data_of(at)).messages@,
                    self.newest_time,
                ) by {
                    assert(self.subscription_tree.path_of(at) == grown.subscription_tree.path_of(
                        at,
                    ));
                    if read.subscription_tree.has_node(at) {
                        assert(grown.subscription_tree.path_of(at)
                            == read.subscription_tree.path_of(at));
                        assert(in_time(
                            read.subscription_tree.data_of(at).messages@,
                            read.newest_time,
                        ));
                    } else {
                        assert(grown.subscription_tree.data_of(at).is_blank());
                    }
                }
                read.lemma_grown(&grown, wanted);
                assert forall|place: Seq<Seq<char>>| #[trigger]
                    self.messages_at(place) == if place == wanted {
                        retained(
                            old(self).messages_at(place),
                            old(self).limit(),
                            old(self).expiry(),
                            now,
                        )
                    } else {
                        old(self).messages_at(place)
                    } by {
                    self.lemma_changed(&grown, id as int, place);
                    assert(grown.messages_at(place) == read.messages_at(place));
                }
                assert forall|place: Seq<Seq<char>>| #[trigger]
                    self.waiting_at(place) == if place == wanted {
                        old(self).waiting_at(place).push(subscription)
                    } else {
                        old(self).waiting_at(place)
                    } by {
                    self.lemma_changed(&grown, id as int, place);
                    assert(grown.waiting_at(place) == read.waiting_at(place));
                    assert(read.waiting_at(place) == old(self).waiting_at(place));
                }
            }
            Reception::Waiting
        }
    }

    /// `after` is `before` once every place was cut down to what it keeps
    /// at `now`.
    pub open spec fn is_sweep(before: &Self, after: &Self, now: i64) -> bool {
        &&& after.same_bounds(before)
        &&& after.newest_time() == before.newest_time()
        &&& forall|place: Seq<Seq<char>>| #[trigger]
            after.messages_at(place) == retained(
                before.messages_at(place),
                before.limit(),
                before.expiry(),
                now,
            )
        &&& forall|place: Seq<Seq<char>>| #[trigger]
            after.waiting_at(place) == before.waiting_at(place)
    }

    /// Cuts every place down to what it keeps at `now`.
    pub fn sweep_at(&mut self, now: i64)
        requires
            old(self).wf(),
        ensures
            final(self).wf(),
            Self::is_sweep(old(self), final(self), now),
    {
        let limit = self.config.message_limit;
        let expiry = self.config.message_expiry;
        let count = self.subscription_tree.len();
        let mut at: usize = 0;
        while at < count
            invariant
                self.linked(),
                self.newest_time == old(self).newest_time,
                self.config == old(self).config,
                limit == old(self).limit(),
                expiry == old(self).expiry(),
                count == old(self).subscription_tree.node_count(),
                at <= count,
                self.subscription_tree.same_shape(&old(self).subscription_tree),
                forall|id: int|
                    0 <= id < count ==> {
                        let mine = #[trigger] self.subscription_tree.data_of(id);
                        let former = old(self).subscription_tree.data_of(id);
                        &&& mine.subscriptions == former.subscriptions
                        &&& mine.messages@ == if id < at {
                            retained(former.messages@, limit, expiry, now)
                        } else {
                            former.messages@
                        }
                    },
            decreases count - at,
        {
            let ghost before = *self;
            let node = self.subscription_tree.data_mut(at);
            trim(&mut node.messages, limit, expiry, now);
            proof {
                assert forall|id: int| self.subscription_tree.has_node(id) implies {
                    &&& #[trigger] self.subscription_tree.path_of(id) == old(
                        self,
                    ).subscription_tree.path_of(id)
                    &&& self.subscription_tree.parent_of(id) == old(
                        self,
                    ).subscription_tree.parent_of(id)
                    &&& self.subscription_tree.children_of(id) == old(
                        self,
                    ).subscription_tree.children_of(id)
                } by {
                    assert(before.subscription_tree.path_of(id) == old(
                        self,
                    ).subscription_tree.path_of(id));
                }
                assert forall|id: int| 0 <= id < count implies {
                    let mine = #[trigger] self.subscription_tree.data_of(id);
                    let former = old(self).subscription_tree.data_of(id);
                    &&& mine.subscriptions == former.subscriptions
                    &&& mine.messages@ == if id < at + 1 {
                        retained(former.messages@, limit, expiry, now)
                    } else {
                        former.messages@
                    }
                } by {
                    if id != at {
                        assert(self.subscription_tree.data_of(id)
                            == before.subscription_tree.data_of(id));
                    }
                    assert(before.subscription_tree.data_of(id).subscriptions == old(
                        self,
                    ).subscription_tree.data_of(id).subscriptions);
                }
            }
            at = at + 1;
        }
        proof {
            let tree = self.subscription_tree;
            let old_tree = old(self).subscription_tree;
            tree.lemma_structure();
            old_tree.lemma_structure();
            assert forall|id: int| tree.has_node(id) implies in_time(
                (#[trigger] tree.data_of(id)).messages@,
                self.newest_time,
            ) by {
                let former = old_tree.data_of(id).messages@;
                assert(tree.path_of(id) == old_tree.path_of(id));
                assert(in_time(former, old(self).newest_time));
                lemma_retained_in_time(former, self.newest_time, limit, expiry, now);
            }
            let none = Seq::<Arc<Message<T>>>::empty();
            lemma_retained(none, limit, expiry, now);
            assert(retained(none, limit, expiry, now) =~= none);
            assert forall|place: Seq<Seq<char>>|
                {
                    &&& #[trigger] self.messages_at(place) == retained(
                        old(self).messages_at(place),
                        limit,
                        expiry,
                        now,
                    )
                    &&& self.waiting_at(place) == old(self).waiting_at(place)
                } by {
                if old_tree.has_path(place) {
                    let id = old_tree.id_of(place);
                    assert(tree.path_of(id) == place);
                    self.lemma_place(id);
                    old(self).lemma_place(id);
                    assert(tree.data_of(id).subscriptions == old_tree.data_of(id).subscriptions);
                } else if tree.has_path(place) {
                    let id = tree.id_of(place);
                    assert(old_tree.path_of(id) == place);
                }
            }
            assert forall|place: Seq<Seq<char>>| #[trigger]
                self.waiting_at(place) == old(self).waiting_at(place) by {
                assert(self.messages_at(place) == retained(
                    old(self).messages_at(place),
                    limit,
                    expiry,
                    now,
                ));
            }
        }
    }

    /// Cuts every place down to what it keeps now.
    pub fn sweep(&mut self)
        requires
            old(self).wf(),
        ensures
            final(self).wf(),
            exists|now: i64| #[trigger] Self::is_sweep(old(self), final(self), now),
    {
        let now = utc_now_micros();
        self.sweep_at(now);
    }

    /// Sends a message: mints its identifier and its time, keeps it at the
    /// path's place and at every place above, and hands back those who
    /// waited there.
    pub fn send(&mut self, path: Vec<String>, message: T) -> (delivery: Delivery<T, W>)
        requires
            old(self).wf(),
        ensures
            final(self).wf(),
            delivery.message.message == message,
            delivery.message.path == path,
            exists|now: i64|
                delivery.message.timestamp == #[trigger] stamped(old(self).newest_time(), now),
            Self::is_send(
                old(self),
                final(self),
                path_view(path@),
                delivery.message,
                delivery.message.timestamp,
            ),
            delivery.subscriptions@ == old(self).drained(
                path_view(path@),
                path_view(path@).len() as int,
            ),
    {
        let message_id = MessageID::new();
        let now = utc_now_micros();
        let delivery = self.send_message(path, message, message_id, now);
        proof {
            assert(delivery.message.timestamp == stamped(old(self).newest_time(), now));
        }
        delivery
    }

    /// Gets any available messages (useful for polling).
    /// If last_message_id is Some, only sends messages that were sent after
    /// that ID. If last_message_id is None, sends all sent messages.
    pub fn get_messages(&mut self, path: Vec<String>, last_message_id: Option<MessageID>) -> (messages:
        Vec<Arc<Message<T>>>)
        requires
            old(self).wf(),
        ensures
            final(self).wf(),
            exists|now: i64|
                {
                    &&& #[trigger] Self::is_read(old(self), final(self), path_view(path@), now)
                    &&& messages@ == old(self).owed(path_view(path@), last_message_id, now)
                },
    {
        let now = utc_now_micros();
        self.get_sent_messages(&path, &last_message_id, now)
    }

    /// Receives what is owed at `path`, or waits there for the next message.
    pub fn recv(
        &mut self,
        path: Vec<String>,
        last_message_id: Option<MessageID>,
        subscription: W,
    ) -> (reception: Reception<T, W>)
        requires
            old(self).wf(),
        ensures
            final(self).wf(),
            exists|now: i64|
                match reception {
                    Reception::Ready { messages, subscription: unused } => {
                        &&& messages@.len() > 0
                        &&& messages@ == #[trigger] old(self).owed(
                            path_view(path@),
                            last_message_id,
                            now,
                        )
                        &&& unused == subscription
                        &&& Self::is_read(old(self), final(self), path_view(path@), now)
                    },
                    Reception::Waiting => {
                        &&& (#[trigger] old(self).owed(
                            path_view(path@),
                            last_message_id,
                            now,
                        )).len() == 0
                        &&& Self::is_wait(
                            old(self),
                            final(self),
                            path_view(path@),
                            subscription,
                            now,
                        )
                    },
                },
    {
        let now = utc_now_micros();
        self.wait_for_messages(path, last_message_id, subscription, now)
    }

    /// Time order. Every place holds its messages in the order of their
    /// times, and none is later than the latest time that the queue has
    /// given.
    pub proof fn lemma_places_in_time(&self, place: Seq<Seq<char>>)
        requires
            self.wf(),
        ensures
            in_time(self.messages_at(place), self.newest_time()),
    {
        if self.subscription_tree.has_path(place) {
            let id = self.subscription_tree.id_of(place);
            assert(in_time(self.subscription_tree.data_of(id).messages@, self.newest_time));
        }
    }

    /// Retention. What a reader is handed at `now` is within the bounds of
    /// the queue: no more messages than the limit, and none that is older
    /// at `now` than the queue keeps messages.
    pub proof fn lemma_owed_within_bounds(
        &self,
        path: Seq<Seq<char>>,
        cursor: Option<MessageID>,
        now: i64,
    )
        requires
            self.wf(),
        ensures
            self.limit() matches Some(most) ==> self.owed(path, cursor, now).len() <= most,
            forall|i: int|
                0 <= i < self.owed(path, cursor, now).len() ==> !is_stale(
                    (#[trigger] self.owed(path, cursor, now)[i]).timestamp,
                    self.expiry(),
                    now,
                ),
    {
        self.lemma_places_in_time(path);
        let kept = retained(self.messages_at(path), self.limit(), self.expiry(), now);
        lemma_retained_is_fresh(self.messages_at(path), self.limit(), self.expiry(), now);
        let owed = self.owed(path, cursor, now);
        if let Some(seen) = cursor {
            lemma_newest_of(kept, seen.value());
        }
        let start = kept.len() - owed.len();
        assert forall|i: int| 0 <= i < owed.len() implies !is_stale(
            (#[trigger] owed[i]).timestamp,
            self.expiry(),
            now,
        ) by {
            assert(owed[i] == kept[i + start]);
        }
    }

    /// Hierarchy. A message sent to a path becomes the newest message at
    /// every place from the root down to the path, and a reader there is
    /// handed it at that instant; at every other place nothing changes. The
    /// queue must be one that keeps messages at all.
    pub proof fn lemma_hierarchy(
        before: &Self,
        after: &Self,
        path: Seq<Seq<char>>,
        message: Arc<Message<T>>,
        place: Seq<Seq<char>>,
    )
        requires
            Self::is_send(before, after, path, message, message.timestamp),
            before.limit() != Some(0u64),
        ensures
            place.is_prefix_of(path) ==> {
                &&& after.messages_at(place).len() > 0
                &&& after.messages_at(place).last() == message
                &&& after.owed(place, None, message.timestamp).len() > 0
                &&& after.owed(place, None, message.timestamp).last() == message
            },
            !place.is_prefix_of(path) ==> after.messages_at(place) == before.messages_at(place),
    {
        if place.is_prefix_of(path) {
            let now = message.timestamp;
            let fifo = before.messages_at(place).push(message);
            lemma_retained(fifo, before.limit(), before.expiry(), now);
            let kept = retained(fifo, before.limit(), before.expiry(), now);
            assert(after.messages_at(place) == kept);
            lemma_retained(kept, before.limit(), before.expiry(), now);
        }
    }
}

} // verus!
