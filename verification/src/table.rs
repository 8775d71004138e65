//! The connection table: a stable-index collection mapping an opaque token
//! (the slot index) to the listener or to a client connection.
//!
//! A token stays valid for the lifetime of its entry and is reused only after
//! the slot is freed. Insertion takes a vacant slot when one exists and grows
//! the table otherwise; removal frees the slot immediately for reuse.

use vstd::prelude::*;
use crate::conn::Connection;

verus! {

/// The accepting listener's state: no buffers, accept-only.
pub struct ListenerState {
    /// A readable notification arrived: a connection may be pending.
    pub accept_ready: bool,
}

/// One table slot: the listening socket's entry or a client connection's.
pub enum Entry {
    Listener(ListenerState),
    Conn(Connection),
}

/// The table itself. Its view is the sequence of slots; `wf` ties the free
/// list to the vacant slots.
pub struct Table {
    pub slots: Vec<Option<Entry>>,
    /// Indices of vacant slots, available for reuse.
    pub free: Vec<usize>,
}

impl View for Table {
    type V = Seq<Option<Entry>>;

    open spec fn view(&self) -> Seq<Option<Entry>> {
        self.slots@
    }
}

impl Table {
    /// Every free-list entry names a vacant slot, and none is listed twice:
    /// a reused token therefore never collides with a live entry.
    pub open spec fn wf(self) -> bool {
        &&& self.free@.no_duplicates()
        &&& forall|j: int|
            0 <= j < self.free@.len() ==> (#[trigger] self.free@[j]) < self.slots@.len()
                && self.slots@[self.free@[j] as int] is None
    }

    /// An empty table.
    pub fn new() -> (t: Table)
        ensures
            t@ == Seq::<Option<Entry>>::empty(),
            t.wf(),
    {
        let t = Table { slots: Vec::new(), free: Vec::new() };
        proof {
            assert(t@ =~= Seq::<Option<Entry>>::empty());
        }
        t
    }

    /// The number of slots, vacant ones included.
    pub fn len(&self) -> (n: usize)
        ensures
            n == self@.len(),
    {
        self.slots.len()
    }

    /// Reads the slot a token names.
    pub fn get(&self, tok: usize) -> (e: &Option<Entry>)
        requires
            tok < self@.len(),
        ensures
            *e == self@[tok as int],
    {
        &self.slots[tok]
    }

    /// Inserts an entry, returning its token: a vacant slot when one exists,
    /// a fresh slot at the end otherwise. Never fails; the table grows as
    /// needed.
    pub fn insert(&mut self, e: Entry) -> (tok: usize)
        requires
            old(self).wf(),
        ensures
            final(self).wf(),
            tok <= old(self)@.len(),
            tok < old(self)@.len() ==> old(self)@[tok as int] is None && final(self)@ == old(
                self,
            )@.update(tok as int, Some(e)),
            tok == old(self)@.len() ==> final(self)@ == old(self)@.push(Some(e)),
            final(self)@[tok as int] == Some(e),
    {
        let reused = self.free.pop();
        match reused {
            Some(tok) => {
                proof {
                    assert(old(self).free@.last() == tok);
                    assert(old(self).free@[old(self).free@.len() - 1] == tok);
                }
                let slot = &mut self.slots[tok];
                *slot = Some(e);
                proof {
                    assert forall|j: int| 0 <= j < self.free@.len() implies (
                    #[trigger] self.free@[j]) < self.slots@.len() && self.slots@[self.free@[j] as int] is None by {
                        assert(self.free@[j] == old(self).free@[j]);
                        assert(old(self).free@[j] != tok) by {
                            assert(old(self).free@.no_duplicates());
                        }
                    }
                }
                tok
            },
            None => {
                self.slots.push(Some(e));
                self.slots.len() - 1
            },
        }
    }

    /// Removes the entry a token names, freeing the slot immediately for
    /// reuse. Asking for a vacant token is an invariant violation in the
    /// caller, ruled out here rather than recovered from.
    pub fn remove(&mut self, tok: usize) -> (e: Entry)
        requires
            old(self).wf(),
            tok < old(self)@.len(),
            old(self)@[tok as int] is Some,
        ensures
            final(self).wf(),
            old(self)@[tok as int] == Some(e),
            final(self)@ == old(self)@.update(tok as int, None),
    {
        proof {
            assert forall|j: int| 0 <= j < self.free@.len() implies self.free@[j] != tok by {
                assert(self.slots@[self.free@[j] as int] is None);
            }
        }
        let mut taken: Option<Entry> = None;
        let slot = &mut self.slots[tok];
        core::mem::swap(slot, &mut taken);
        self.free.push(tok);
        proof {
            assert(self.free@ =~= old(self).free@.push(tok));
            assert forall|j: int| 0 <= j < self.free@.len() implies (
            #[trigger] self.free@[j]) < self.slots@.len() && self.slots@[self.free@[j] as int] is None by {
                if j < old(self).free@.len() {
                    assert(old(self).free@[j] != tok);
                }
            }
            assert(self.free@.no_duplicates());
        }
        taken.unwrap()
    }
}

/// Mutating live entries in place never disturbs the free list: a table stays
/// well formed as long as every vacant slot stays vacant.
pub proof fn lemma_wf_entries_updated(t0: Table, t1: Table)
    requires
        t0.wf(),
        t1.free == t0.free,
        t1.slots@.len() == t0.slots@.len(),
        forall|i: int| 0 <= i < t0.slots@.len() && t0.slots@[i] is None ==> t1.slots@[i] is None,
    ensures
        t1.wf(),
{
    assert forall|j: int| 0 <= j < t1.free@.len() implies (#[trigger] t1.free@[j])
        < t1.slots@.len() && t1.slots@[t1.free@[j] as int] is None by {
        assert(t0.slots@[t0.free@[j] as int] is None);
    }
}

} // verus!
