//! The table of lookups that share one socket.

use crate::resolver::classify_response;
use crate::resolver::classify_spec;
use crate::resolver::ResolverState;
use crate::resolver::StateView;
use crate::response::u16_at;
use vstd::prelude::*;

verus! {

/// The transaction ids that a list holds, as a set.
pub open spec fn ids_in(ids: Seq<u16>) -> Set<u16> {
    Set::new(|id: u16| ids.contains(id))
}

/// The lookups that are under way over one socket, by transaction id.
///
/// A lookup registers its id before it sends, and the one loop that
/// receives hands each datagram to `dispatch`, which finds the lookup that
/// it answers. Each operation is short and never waits, so a caller who
/// shares the table holds its lock for the one operation and no longer.
#[derive(Debug)]
pub struct PendingTable {
    ids: Vec<u16>,
}

impl View for PendingTable {
    type V = Set<u16>;

    closed spec fn view(&self) -> Set<u16> {
        ids_in(self.ids@)
    }
}

/// One more id in the list is one more in the set.
proof fn lemma_ids_push(ids: Seq<u16>, id: u16)
    ensures
        ids_in(ids.push(id)) == ids_in(ids).insert(id),
{
    let grown = ids.push(id);
    assert forall|other: u16| ids_in(grown).contains(other) implies ids_in(ids).insert(
        id,
    ).contains(other) by {
        let i = choose|i: int| 0 <= i < grown.len() && grown[i] == other;
        assert(i < ids.len() ==> ids[i] == grown[i]);
    }
    assert forall|other: u16| ids_in(ids).insert(id).contains(other) implies ids_in(
        grown,
    ).contains(other) by {
        if other == id {
            assert(grown[ids.len() as int] == other);
        } else {
            let i = choose|i: int| 0 <= i < ids.len() && ids[i] == other;
            assert(grown[i] == other);
        }
    }
}

/// What becomes of a datagram and of the table that it is dispatched on:
/// the table afterwards, and the id and end of the lookup that the
/// datagram answers, if it answers one.
///
/// The id of a datagram is the number in its first two bytes. A datagram
/// without one, or with one under which nothing is pending, is dropped and
/// changes nothing. Any other ends the lookup under its id, as
/// `classify_spec` says, and takes that id out of the table.
pub open spec fn dispatch_spec(pending: Set<u16>, buf: Seq<u8>) -> (
    Set<u16>,
    Option<(u16, StateView)>,
) {
    if buf.len() >= 2 && pending.contains(u16_at(buf, 0)) {
        let id = u16_at(buf, 0);
        (pending.remove(id), Some((id, classify_spec(id, buf))))
    } else {
        (pending, None)
    }
}

impl PendingTable {
    /// A table with nothing pending.
    pub fn new() -> (table: PendingTable)
        ensures
            table@ == Set::<u16>::empty(),
    {
        PendingTable { ids: Vec::new() }
    }

    /// Whether a lookup is pending under `id`.
    pub fn is_pending(&self, id: u16) -> (pending: bool)
        ensures
            pending == self@.contains(id),
    {
        let mut i: usize = 0;
        while i < self.ids.len()
            invariant
                i <= self.ids@.len(),
                forall|j: int| 0 <= j < i ==> self.ids@[j] != id,
            decreases self.ids@.len() - i,
        {
            if self.ids[i] == id {
                return true;
            }
            i += 1;
        }
        false
    }

    /// Registers a lookup under `id`. An id that is already pending is not
    /// registered again: the caller is to choose another.
    pub fn register(&mut self, id: u16) -> (added: bool)
        ensures
            added == !old(self)@.contains(id),
            final(self)@ == old(self)@.insert(id),
    {
        if self.is_pending(id) {
            false
        } else {
            let ghost before = self.ids@;
            self.ids.push(id);
            proof {
                lemma_ids_push(before, id);
            }
            true
        }
    }

    /// Takes the lookup under `id` out of the table, as when its time is
    /// over. A datagram that comes for it later finds nothing pending.
    pub fn cancel(&mut self, id: u16) -> (removed: bool)
        ensures
            removed == old(self)@.contains(id),
            final(self)@ == old(self)@.remove(id),
    {
        let mut kept: Vec<u16> = Vec::new();
        let mut removed = false;
        let mut i: usize = 0;
        while i < self.ids.len()
            invariant
                i <= self.ids@.len(),
                removed == ids_in(self.ids@.take(i as int)).contains(id),
                ids_in(kept@) == ids_in(self.ids@.take(i as int)).remove(id),
            decreases self.ids@.len() - i,
        {
            let next = self.ids[i];
            let ghost seen = self.ids@.take(i as int);
            let ghost kept_before = kept@;
            proof {
                assert(self.ids@.take(i + 1) == seen.push(next));
                lemma_ids_push(seen, next);
            }
            if next == id {
                removed = true;
            } else {
                kept.push(next);
                proof {
                    lemma_ids_push(kept_before, next);
                }
            }
            i += 1;
        }
        assert(self.ids@.take(i as int) == self.ids@);
        self.ids = kept;
        removed
    }

    /// Finds the lookup that a datagram answers. A datagram under an id
    /// that is not pending is dropped. Any other ends its lookup, which
    /// leaves the table, and comes back with the lookup's id and end.
    pub fn dispatch(&mut self, datagram: &[u8]) -> (delivery: Option<(u16, ResolverState)>)
        ensures
            final(self)@ == dispatch_spec(old(self)@, datagram@).0,
            match delivery {
                Some((id, state)) => dispatch_spec(old(self)@, datagram@).1 == Some((id, state@)),
                None => dispatch_spec(old(self)@, datagram@).1 is None,
            },
    {
        if datagram.len() < 2 {
            return None;
        }
        let id = datagram[0] as u16 * 256 + datagram[1] as u16;
        if self.cancel(id) {
            Some((id, classify_response(id, datagram)))
        } else {
            None
        }
    }
}

} // verus!
