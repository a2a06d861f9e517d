//! Reading a list of identified entries from behind a cursor.
//!
//! A reader names the entry that it has seen last by the entry's identifier
//! and is owed what came after it. An identifier that the list holds more
//! than once stands for its newest entry; one that the list does not hold
//! stands for no entry, so that the reader is owed the whole list.

use vstd::prelude::*;

verus! {

/// An entry that carries an identifier.
pub trait Identified {
    /// The identifier of the entry.
    spec fn ident(&self) -> u128;

    /// The identifier of the entry.
    fn identifier(&self) -> (id: u128)
        ensures
            id == self.ident(),
    ;
}

/// The place in `entries` of the newest entry with identifier `id`, or -1
/// where there is none.
pub open spec fn newest_of<R: Identified>(entries: Seq<R>, id: u128) -> int
    decreases entries.len(),
{
    if entries.len() == 0 {
        -1
    } else if entries.last().ident() == id {
        entries.len() - 1
    } else {
        newest_of(entries.drop_last(), id)
    }
}

/// The place in `entries` from which a reader with `cursor` is owed the
/// entries.
pub open spec fn first_owed<R: Identified>(entries: Seq<R>, cursor: Option<u128>) -> int {
    match cursor {
        Some(id) => newest_of(entries, id) + 1,
        None => 0,
    }
}

/// What a reader with `cursor` is still owed of `entries`.
pub open spec fn owed_after<R: Identified>(entries: Seq<R>, cursor: Option<u128>) -> Seq<R> {
    entries.skip(first_owed(entries, cursor))
}

/// The newest entry with identifier `id` is where `newest_of` says, and no
/// entry after it has that identifier.
pub proof fn lemma_newest_of<R: Identified>(entries: Seq<R>, id: u128)
    ensures
        -1 <= newest_of(entries, id) < entries.len(),
        newest_of(entries, id) >= 0 ==> entries[newest_of(entries, id)].ident() == id,
        forall|i: int|
            newest_of(entries, id) < i < entries.len() ==> (#[trigger] entries[i]).ident() != id,
    decreases entries.len(),
{
    if entries.len() > 0 && entries.last().ident() != id {
        lemma_newest_of(entries.drop_last(), id);
        assert forall|i: int| newest_of(entries, id) < i < entries.len() implies (
        #[trigger] entries[i]).ident() != id by {
            if i < entries.len() - 1 {
                assert(entries.drop_last()[i] == entries[i]);
            }
        }
    }
}

/// Cursor idempotence. Whatever a list holds, a reader who names an entry
/// as seen is not handed an entry with that identifier again.
pub proof fn lemma_cursor_excludes<R: Identified>(entries: Seq<R>, seen: u128)
    ensures
        forall|i: int|
            0 <= i < owed_after(entries, Some(seen)).len() ==> (#[trigger] owed_after(
                entries,
                Some(seen),
            )[i]).ident() != seen,
{
    lemma_newest_of(entries, seen);
}

/// Where the identifier of the entry at place `at` does not come again
/// behind it, a reader who names that entry as seen is owed exactly what
/// comes behind it.
pub proof fn lemma_cursor_at<R: Identified>(entries: Seq<R>, at: int)
    requires
        0 <= at < entries.len(),
        forall|i: int|
            at < i < entries.len() ==> (#[trigger] entries[i]).ident() != entries[at].ident(),
    ensures
        newest_of(entries, entries[at].ident()) == at,
        owed_after(entries, Some(entries[at].ident())) == entries.skip(at + 1),
{
    let id = entries[at].ident();
    lemma_newest_of(entries, id);
    let found = newest_of(entries, id);
    if found < at {
        assert(entries[at].ident() != id);
    }
    if found > at {
        assert(entries[found].ident() != id);
    }
}

/// A reader whose cursor names no entry of the list, or who has none, is
/// owed the whole list.
pub proof fn lemma_cursor_not_found<R: Identified>(entries: Seq<R>, cursor: Option<u128>)
    requires
        cursor matches Some(id) ==> forall|i: int|
            0 <= i < entries.len() ==> (#[trigger] entries[i]).ident() != id,
    ensures
        owed_after(entries, cursor) == entries,
{
    if let Some(id) = cursor {
        lemma_newest_of(entries, id);
    }
    assert(entries.skip(0) =~= entries);
}

/// Says from which place on a reader with `cursor` is owed the entries.
pub fn cursor_start<R: Identified>(entries: &Vec<R>, cursor: Option<u128>) -> (start: usize)
    ensures
        start == first_owed(entries@, cursor),
        start <= entries@.len(),
{
    match cursor {
        Some(id) => {
            // the list is in the order of arrival, the newest entry at the back
            let mut at: usize = entries.len();
            proof {
                assert(entries@.take(at as int) =~= entries@);
            }
            while at > 0
                invariant
                    cursor == Some(id),
                    at <= entries.len(),
                    newest_of(entries@, id) == newest_of(entries@.take(at as int), id),
                decreases at,
            {
                let ghost head = entries@.take(at as int);
                proof {
                    assert(head.last() == entries@[at - 1]);
                    assert(head.drop_last() =~= entries@.take(at - 1));
                }
                if entries[at - 1].identifier() == id {
                    assert(newest_of(head, id) == at - 1);
                    return at;
                }
                at = at - 1;
            }
            0
        },
        None => 0,
    }
}

} // verus!
