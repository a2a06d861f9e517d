//! Rules by which old entries leave a list that is kept in the order of
//! arrival.

use vstd::prelude::*;

verus! {

/// Whether an entry of time `sent` is too old at `now` for a list that keeps
/// entries for `expiry` seconds. Times are in microseconds.
pub open spec fn is_stale(sent: i64, expiry: Option<u64>, now: i64) -> bool {
    expiry matches Some(seconds) && now - sent > seconds * 1_000_000
}

/// How many entries a list of `len` entries has over `limit`.
pub open spec fn surplus(len: nat, limit: Option<u64>) -> int {
    match limit {
        Some(most) => if len > most {
            len - most
        } else {
            0
        },
        None => 0,
    }
}

/// Whether an entry of time `sent` is too old at `now`.
pub fn stale(sent: i64, expiry: Option<u64>, now: i64) -> (gone: bool)
    ensures
        gone == is_stale(sent, expiry, now),
{
    match expiry {
        Some(seconds) => {
            let age: i128 = now as i128 - sent as i128;
            let bound: i128 = seconds as i128 * 1_000_000;
            age > bound
        },
        None => false,
    }
}

/// The time that an entry made at `now` gets in a list whose newest entry
/// is of time `newest`: the later of the two, so that the list stays in the
/// order of its times whatever the clock does.
pub open spec fn stamped(newest: Option<i64>, now: i64) -> i64 {
    match newest {
        Some(time) => if time > now {
            time
        } else {
            now
        },
        None => now,
    }
}

/// Says which time an entry made at `now` gets behind an entry of time
/// `newest`.
pub fn stamp_after(newest: Option<i64>, now: i64) -> (stamp: i64)
    ensures
        stamp == stamped(newest, now),
{
    match newest {
        Some(time) => {
            if time > now {
                time
            } else {
                now
            }
        },
        None => now,
    }
}

/// An entry that knows when it was made.
pub trait Stamped {
    /// The time of the entry, in microseconds since the Unix epoch.
    spec fn stamp(&self) -> i64;

    /// The time of the entry, in microseconds since the Unix epoch.
    fn timestamp(&self) -> (micros: i64)
        ensures
            micros == self.stamp(),
    ;
}

/// How many entries at the front of `entries` are stale at `now`.
pub open spec fn leading_stale<R: Stamped>(entries: Seq<R>, expiry: Option<u64>, now: i64) -> int
    decreases entries.len(),
{
    if entries.len() == 0 || !is_stale(entries[0].stamp(), expiry, now) {
        0
    } else {
        1 + leading_stale(entries.skip(1), expiry, now)
    }
}

/// The entries are in the order of their times.
pub open spec fn in_time_order<R: Stamped>(entries: Seq<R>) -> bool {
    forall|i: int, j: int|
        0 <= i <= j < entries.len() ==> (#[trigger] entries[i]).stamp() <= (
        #[trigger] entries[j]).stamp()
}

/// How many of the oldest entries of a key's history leave at `now`. The
/// newest entry, which is the current value, always stays. Without history
/// every previous entry leaves; with history those previous entries leave
/// that are over `max_entries` in number or, at the front, older than
/// `max_age` seconds.
pub open spec fn purge_count<R: Stamped>(
    history: Seq<R>,
    keep_history: bool,
    max_age: Option<u64>,
    max_entries: Option<u64>,
    now: i64,
) -> int {
    if history.len() == 0 {
        0
    } else {
        let previous = history.drop_last();
        if !keep_history {
            previous.len() as int
        } else {
            let over = surplus(previous.len(), max_entries);
            let old = leading_stale(previous, max_age, now);
            if over >= old {
                over
            } else {
                old
            }
        }
    }
}

/// What stays of a key's history at `now`.
pub open spec fn kept_history<R: Stamped>(
    history: Seq<R>,
    keep_history: bool,
    max_age: Option<u64>,
    max_entries: Option<u64>,
    now: i64,
) -> Seq<R> {
    history.skip(purge_count(history, keep_history, max_age, max_entries, now))
}

/// The stale entries in front are no more than the list is long; all of them
/// are stale, and the entry behind them, if there is one, is fresh.
pub proof fn lemma_leading_stale<R: Stamped>(entries: Seq<R>, expiry: Option<u64>, now: i64)
    ensures
        0 <= leading_stale(entries, expiry, now) <= entries.len(),
        forall|i: int|
            0 <= i < leading_stale(entries, expiry, now) ==> is_stale(
                (#[trigger] entries[i]).stamp(),
                expiry,
                now,
            ),
        leading_stale(entries, expiry, now) < entries.len() ==> !is_stale(
            entries[leading_stale(entries, expiry, now)].stamp(),
            expiry,
            now,
        ),
    decreases entries.len(),
{
    if entries.len() > 0 && is_stale(entries[0].stamp(), expiry, now) {
        let rest = entries.skip(1);
        lemma_leading_stale(rest, expiry, now);
        assert forall|i: int| 0 <= i < leading_stale(entries, expiry, now) implies is_stale(
            (#[trigger] entries[i]).stamp(),
            expiry,
            now,
        ) by {
            if i > 0 {
                assert(rest[i - 1] == entries[i]);
            }
        }
        if leading_stale(entries, expiry, now) < entries.len() {
            assert(rest[leading_stale(rest, expiry, now)] == entries[leading_stale(
                entries,
                expiry,
                now,
            )]);
        }
    }
}

/// In a list that is in the order of its times, the stale entries are
/// exactly those in front: behind them every entry is fresh.
pub proof fn lemma_stale_is_front<R: Stamped>(entries: Seq<R>, expiry: Option<u64>, now: i64)
    requires
        in_time_order(entries),
    ensures
        forall|i: int|
            0 <= i < entries.len() ==> (is_stale((#[trigger] entries[i]).stamp(), expiry, now) <==> i
                < leading_stale(entries, expiry, now)),
{
    lemma_leading_stale(entries, expiry, now);
    let front = leading_stale(entries, expiry, now);
    assert forall|i: int| 0 <= i < entries.len() implies (is_stale(
        (#[trigger] entries[i]).stamp(),
        expiry,
        now,
    ) <==> i < front) by {
        if i >= front {
            assert(entries[front].stamp() <= entries[i].stamp());
        }
    }
}

/// In a list that is in the order of its times, nothing behind the stale
/// entries in front is stale.
pub proof fn lemma_fresh_behind_front<R: Stamped>(entries: Seq<R>, expiry: Option<u64>, now: i64)
    requires
        in_time_order(entries),
    ensures
        forall|i: int|
            0 <= i < entries.skip(leading_stale(entries, expiry, now)).len() ==> !is_stale(
                (#[trigger] entries.skip(leading_stale(entries, expiry, now))[i]).stamp(),
                expiry,
                now,
            ),
{
    lemma_leading_stale(entries, expiry, now);
    lemma_stale_is_front(entries, expiry, now);
    let front = leading_stale(entries, expiry, now);
    assert forall|i: int| 0 <= i < entries.skip(front).len() implies !is_stale(
        (#[trigger] entries.skip(front)[i]).stamp(),
        expiry,
        now,
    ) by {
        assert(entries.skip(front)[i] == entries[i + front]);
    }
}

/// The current value survives every purge, and what is kept is the end of
/// the history.
pub proof fn lemma_kept_history<R: Stamped>(
    history: Seq<R>,
    keep_history: bool,
    max_age: Option<u64>,
    max_entries: Option<u64>,
    now: i64,
)
    ensures
        0 <= purge_count(history, keep_history, max_age, max_entries, now) <= history.len(),
        history.len() > 0 ==> {
            &&& purge_count(history, keep_history, max_age, max_entries, now) < history.len()
            &&& kept_history(history, keep_history, max_age, max_entries, now).len() > 0
            &&& kept_history(history, keep_history, max_age, max_entries, now).last()
                == history.last()
        },
        !keep_history ==> kept_history(history, keep_history, max_age, max_entries, now).len()
            <= 1,
        keep_history && max_entries is Some ==> kept_history(
            history,
            keep_history,
            max_age,
            max_entries,
            now,
        ).len() <= max_entries.unwrap() + 1,
        in_time_order(history) ==> in_time_order(
            kept_history(history, keep_history, max_age, max_entries, now),
        ),
{
    if history.len() > 0 {
        lemma_leading_stale(history.drop_last(), max_age, now);
    }
}

/// Counts the entries at the front of `entries`, its last entry left out,
/// that are stale at `now`.
fn count_leading_stale<R: Stamped>(entries: &Vec<R>, expiry: Option<u64>, now: i64) -> (count: usize)
    requires
        entries@.len() > 0,
    ensures
        count == leading_stale(entries@.drop_last(), expiry, now),
{
    let ghost previous = entries@.drop_last();
    let mut count: usize = 0;
    proof {
        assert(previous.skip(0) =~= previous);
    }
    while count < entries.len() - 1
        invariant_except_break
            entries@.len() > 0,
            previous == entries@.drop_last(),
            count <= previous.len(),
            count == previous.len() ==> leading_stale(previous, expiry, now) == count,
            leading_stale(previous, expiry, now) == count + leading_stale(
                previous.skip(count as int),
                expiry,
                now,
            ),
        ensures
            count == leading_stale(previous, expiry, now),
        decreases entries@.len() - count,
    {
        let ghost rest = previous.skip(count as int);
        proof {
            assert(rest[0] == entries@[count as int]);
            assert(rest.skip(1) =~= previous.skip(count + 1));
        }
        if !stale(entries[count].timestamp(), expiry, now) {
            assert(leading_stale(rest, expiry, now) == 0);
            break ;
        }
        assert(leading_stale(rest, expiry, now) == 1 + leading_stale(rest.skip(1), expiry, now));
        count = count + 1;
        assert(count == previous.len() ==> leading_stale(previous.skip(count as int), expiry, now)
            == 0);
    }
    count
}

/// Says how many of the oldest entries of a key's history leave at `now`.
pub fn count_purged<R: Stamped>(
    history: &Vec<R>,
    keep_history: bool,
    max_age: Option<u64>,
    max_entries: Option<u64>,
    now: i64,
) -> (count: usize)
    ensures
        count == purge_count(history@, keep_history, max_age, max_entries, now),
        count <= history@.len(),
{
    proof {
        lemma_kept_history(history@, keep_history, max_age, max_entries, now);
    }
    if history.len() == 0 {
        return 0;
    }
    let previous = history.len() - 1;
    if !keep_history {
        return previous;
    }
    let over: usize = match max_entries {
        Some(most) => {
            if previous as u64 > most {
                (previous as u64 - most) as usize
            } else {
                0
            }
        },
        None => 0,
    };
    let old = count_leading_stale(history, max_age, now);
    if over >= old {
        over
    } else {
        old
    }
}

} // verus!
