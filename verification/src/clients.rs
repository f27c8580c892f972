//! The authenticated half of the connection registry: per-connection state
//! for clients that completed identity negotiation, keyed by the reactor's
//! opaque token.

use vstd::prelude::*;

use crate::player::Moniker;
use crate::table::{assoc_map, distinct_keys, lemma_assoc_map_contains, lemma_assoc_map_index,
    lemma_assoc_map_push, lemma_assoc_map_remove, lemma_assoc_map_update, lemma_distinct_remove,
    lemma_distinct_update};

verus! {

/// A connected, named player: its identity and the time of its last
/// accepted move (for the rate limiter), in milliseconds.
#[derive(Copy, Clone, PartialEq, Eq, Structural, Debug)]
pub struct ClientObject {
    pub moniker: Moniker,
    pub last_move_at: u64,
}

/// Clients by token: an association vector with pairwise-distinct tokens,
/// abstracted as a `Map<u64, ClientObject>`.
pub struct ClientTable {
    entries: Vec<(u64, ClientObject)>,
}

impl ClientTable {
    /// The raw entries, in insertion order.
    pub closed spec fn entries_seq(self) -> Seq<(u64, ClientObject)> {
        self.entries@
    }

    /// The map this registry denotes.
    pub open spec fn map(self) -> Map<u64, ClientObject> {
        assoc_map(self.entries_seq())
    }

    /// No two entries share a token.
    pub open spec fn wf(self) -> bool {
        distinct_keys(self.entries_seq())
    }

    pub fn new() -> (t: ClientTable)
        ensures
            t.wf(),
            t.map() == Map::<u64, ClientObject>::empty(),
            t.entries_seq() == Seq::<(u64, ClientObject)>::empty(),
    {
        ClientTable { entries: Vec::new() }
    }

    /// The raw entries, for iterating the recipients of a broadcast.
    pub fn entries(&self) -> (r: &Vec<(u64, ClientObject)>)
        ensures
            r@ == self.entries_seq(),
    {
        &self.entries
    }

    /// Each entry is in the map; each mapped token has an entry.
    pub proof fn lemma_entries_map(self)
        requires
            self.wf(),
        ensures
            forall|i: int|
                0 <= i < self.entries_seq().len() ==> {
                    &&& self.map().contains_key((#[trigger] self.entries_seq()[i]).0)
                    &&& self.map()[self.entries_seq()[i].0] == self.entries_seq()[i].1
                },
            forall|t: u64|
                self.map().contains_key(t) ==> exists|i: int|
                    0 <= i < self.entries_seq().len() && (#[trigger] self.entries_seq()[i]).0 == t,
    {
        assert forall|i: int| 0 <= i < self.entries_seq().len() implies {
            &&& self.map().contains_key((#[trigger] self.entries_seq()[i]).0)
            &&& self.map()[self.entries_seq()[i].0] == self.entries_seq()[i].1
        } by {
            lemma_assoc_map_index(self.entries_seq(), i);
        }
        assert forall|t: u64| self.map().contains_key(t) implies exists|i: int|
            0 <= i < self.entries_seq().len() && (#[trigger] self.entries_seq()[i]).0 == t by {
            lemma_assoc_map_contains(self.entries_seq(), t);
        }
    }

    pub fn is_empty(&self) -> (r: bool)
        requires
            self.wf(),
        ensures
            r == (self.map().dom() == Set::<u64>::empty()),
    {
        proof {
            self.lemma_entries_map();
            if self.entries_seq().len() > 0 {
                assert(self.map().contains_key(self.entries_seq()[0].0));
                assert(self.map().dom().contains(self.entries_seq()[0].0));
            } else {
                assert(self.map().dom() =~= Set::<u64>::empty());
            }
        }
        self.entries.len() == 0
    }

    pub fn get(&self, tok: u64) -> (r: Option<ClientObject>)
        requires
            self.wf(),
        ensures
            r is Some <==> self.map().contains_key(tok),
            r is Some ==> r->Some_0 == self.map()[tok],
    {
        let n = self.entries.len();
        let mut i: usize = 0;
        while i < n
            invariant
                n == self.entries_seq().len(),
                i <= n,
                self.wf(),
                forall|a: int| 0 <= a < i ==> (#[trigger] self.entries_seq()[a]).0 != tok,
            decreases n - i,
        {
            if self.entries[i].0 == tok {
                proof {
                    lemma_assoc_map_index(self.entries_seq(), i as int);
                }
                return Some(self.entries[i].1);
            }
            i = i + 1;
        }
        proof {
            lemma_assoc_map_contains(self.entries_seq(), tok);
        }
        None
    }

    /// Insert a client under a fresh token.
    pub fn insert(&mut self, tok: u64, obj: ClientObject)
        requires
            old(self).wf(),
            !old(self).map().contains_key(tok),
        ensures
            final(self).wf(),
            final(self).map() == old(self).map().insert(tok, obj),
    {
        proof {
            lemma_assoc_map_contains(self.entries_seq(), tok);
            lemma_assoc_map_push(self.entries_seq(), tok, obj);
        }
        self.entries.push((tok, obj));
    }

    /// Remove and return the client under `tok`.
    pub fn remove(&mut self, tok: u64) -> (r: Option<ClientObject>)
        requires
            old(self).wf(),
        ensures
            final(self).wf(),
            r is Some <==> old(self).map().contains_key(tok),
            r is Some ==> r->Some_0 == old(self).map()[tok],
            final(self).map() == old(self).map().remove(tok),
            r is None ==> *final(self) == *old(self),
    {
        let n = self.entries.len();
        let mut i: usize = 0;
        while i < n
            invariant
                *self == *old(self),
                n == self.entries_seq().len(),
                i <= n,
                self.wf(),
                forall|a: int| 0 <= a < i ==> (#[trigger] self.entries_seq()[a]).0 != tok,
            decreases n - i,
        {
            if self.entries[i].0 == tok {
                proof {
                    lemma_assoc_map_contains(self.entries_seq(), tok);
                    lemma_assoc_map_index(self.entries_seq(), i as int);
                    lemma_assoc_map_remove(self.entries_seq(), i as int);
                    lemma_distinct_remove(self.entries_seq(), i as int);
                }
                let obj = self.entries[i].1;
                self.entries.remove(i);
                return Some(obj);
            }
            i = i + 1;
        }
        proof {
            lemma_assoc_map_contains(self.entries_seq(), tok);
            assert(self.map().remove(tok) =~= self.map());
        }
        None
    }

    /// Overwrite the state of the client under `tok`.
    pub fn update(&mut self, tok: u64, obj: ClientObject)
        requires
            old(self).wf(),
            old(self).map().contains_key(tok),
        ensures
            final(self).wf(),
            final(self).map() == old(self).map().insert(tok, obj),
    {
        let n = self.entries.len();
        let mut i: usize = 0;
        proof {
            lemma_assoc_map_contains(self.entries_seq(), tok);
        }
        while i < n
            invariant
                *self == *old(self),
                n == self.entries_seq().len(),
                i <= n,
                self.wf(),
                exists|a: int| 0 <= a < n && (#[trigger] self.entries_seq()[a]).0 == tok,
                forall|a: int| 0 <= a < i ==> (#[trigger] self.entries_seq()[a]).0 != tok,
            decreases n - i,
        {
            if self.entries[i].0 == tok {
                proof {
                    lemma_assoc_map_update(self.entries_seq(), i as int, obj);
                    lemma_distinct_update(self.entries_seq(), i as int, obj);
                }
                self.entries.set(i, (tok, obj));
                return ;
            }
            i = i + 1;
        }
    }
}

} // verus!
