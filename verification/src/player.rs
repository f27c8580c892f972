//! Players: a single-character identity ([`Moniker`]), the per-player state
//! ([`PlayerObject`]), and the registry of players keyed by identity.

use vstd::prelude::*;

use crate::grid::Coord2D;
use crate::table::{assoc_map, distinct_keys, lemma_assoc_map_contains, lemma_assoc_map_dom_len,
    lemma_assoc_map_index, lemma_assoc_map_push, lemma_assoc_map_remove, lemma_assoc_map_update};

verus! {

/// A player's charge can never exceed this limit.
pub const POWER_LIMIT: u16 = 3;

/// A single printable character naming a player; unique among the players
/// currently registered.
#[derive(Copy, Clone, PartialEq, Eq, Structural, Hash, Debug)]
pub struct Moniker(pub char);

/// A player's state: where it stands and how much charge it holds.
#[derive(Copy, Clone, PartialEq, Eq, Structural, Debug)]
pub struct PlayerObject {
    pub coord: Coord2D,
    pub charge: u16,
}

/// The player registry: an association vector with pairwise-distinct
/// monikers, abstracted as a `Map<Moniker, PlayerObject>`.
pub struct PlayerTable {
    entries: Vec<(Moniker, PlayerObject)>,
}

impl PlayerTable {
    /// The raw entries, in insertion order.
    pub closed spec fn entries_seq(self) -> Seq<(Moniker, PlayerObject)> {
        self.entries@
    }

    /// The map this registry denotes.
    pub open spec fn map(self) -> Map<Moniker, PlayerObject> {
        assoc_map(self.entries_seq())
    }

    /// No two entries share a moniker.
    pub open spec fn wf(self) -> bool {
        distinct_keys(self.entries_seq())
    }

    /// Some registered player stands at `c`.
    pub open spec fn some_player_at(self, c: Coord2D) -> bool {
        exists|m: Moniker| #[trigger] self.map().contains_key(m) && self.map()[m].coord == c
    }

    pub fn new() -> (t: PlayerTable)
        ensures
            t.wf(),
            t.map() == Map::<Moniker, PlayerObject>::empty(),
            t.entries_seq() == Seq::<(Moniker, PlayerObject)>::empty(),
    {
        PlayerTable { entries: Vec::new() }
    }

    /// Build a registry from plain entries; refused unless the monikers are
    /// pairwise distinct.
    pub fn from_entries(entries: Vec<(Moniker, PlayerObject)>) -> (t: Option<PlayerTable>)
        ensures
            t is Some <==> distinct_keys(entries@),
            t is Some ==> {
                &&& t->Some_0.wf()
                &&& t->Some_0.entries_seq() == entries@
            },
    {
        let n = entries.len();
        let mut i: usize = 0;
        while i < n
            invariant
                n == entries@.len(),
                i <= n,
                forall|a: int, b: int|
                    0 <= a < i && a < b < n ==> (#[trigger] entries@[a]).0 != (#[trigger] entries@[b]).0,
            decreases n - i,
        {
            let mut j: usize = i + 1;
            while j < n
                invariant
                    n == entries@.len(),
                    i < j <= n,
                    i < n,
                    forall|b: int| i < b < j ==> (#[trigger] entries@[b]).0 != entries@[i as int].0,
                decreases n - j,
            {
                if entries[j].0 == entries[i].0 {
                    return None;
                }
                j = j + 1;
            }
            i = i + 1;
        }
        assert(distinct_keys(entries@)) by {
            assert(forall|a: int, b: int|
                0 <= a < entries@.len() && 0 <= b < entries@.len() && a != b ==> ((#[trigger] entries@[a]).0
                    != (#[trigger] entries@[b]).0));
        }
        Some(PlayerTable { entries })
    }

    /// The raw entries, for iteration and for carrying the registry to the
    /// wire.
    pub fn entries(&self) -> (r: &Vec<(Moniker, PlayerObject)>)
        ensures
            r@ == self.entries_seq(),
    {
        &self.entries
    }

    /// Each entry is in the map; the converse bridge from map to entries.
    pub proof fn lemma_entries_map(self)
        requires
            self.wf(),
        ensures
            forall|i: int|
                0 <= i < self.entries_seq().len() ==> {
                    &&& self.map().contains_key((#[trigger] self.entries_seq()[i]).0)
                    &&& self.map()[self.entries_seq()[i].0] == self.entries_seq()[i].1
                },
            forall|m: Moniker|
                self.map().contains_key(m) ==> exists|i: int|
                    0 <= i < self.entries_seq().len() && (#[trigger] self.entries_seq()[i]).0 == m,
    {
        assert forall|i: int| 0 <= i < self.entries_seq().len() implies {
            &&& self.map().contains_key((#[trigger] self.entries_seq()[i]).0)
            &&& self.map()[self.entries_seq()[i].0] == self.entries_seq()[i].1
        } by {
            lemma_assoc_map_index(self.entries_seq(), i);
        }
        assert forall|m: Moniker| self.map().contains_key(m) implies exists|i: int|
            0 <= i < self.entries_seq().len() && (#[trigger] self.entries_seq()[i]).0 == m by {
            lemma_assoc_map_contains(self.entries_seq(), m);
        }
    }

    pub fn len(&self) -> (n: usize)
        requires
            self.wf(),
        ensures
            n == self.map().dom().len(),
            n == self.entries_seq().len(),
    {
        proof {
            lemma_assoc_map_dom_len(self.entries_seq());
        }
        self.entries.len()
    }

    pub fn contains(&self, m: Moniker) -> (r: bool)
        ensures
            r == self.map().contains_key(m),
    {
        let n = self.entries.len();
        let mut i: usize = 0;
        while i < n
            invariant
                n == self.entries_seq().len(),
                i <= n,
                forall|a: int| 0 <= a < i ==> (#[trigger] self.entries_seq()[a]).0 != m,
            decreases n - i,
        {
            if self.entries[i].0 == m {
                proof {
                    lemma_assoc_map_contains(self.entries_seq(), m);
                }
                return true;
            }
            i = i + 1;
        }
        proof {
            lemma_assoc_map_contains(self.entries_seq(), m);
        }
        false
    }

    pub fn get(&self, m: Moniker) -> (r: Option<PlayerObject>)
        requires
            self.wf(),
        ensures
            r is Some <==> self.map().contains_key(m),
            r is Some ==> r->Some_0 == self.map()[m],
    {
        let n = self.entries.len();
        let mut i: usize = 0;
        while i < n
            invariant
                n == self.entries_seq().len(),
                i <= n,
                self.wf(),
                forall|a: int| 0 <= a < i ==> (#[trigger] self.entries_seq()[a]).0 != m,
            decreases n - i,
        {
            if self.entries[i].0 == m {
                proof {
                    lemma_assoc_map_index(self.entries_seq(), i as int);
                }
                return Some(self.entries[i].1);
            }
            i = i + 1;
        }
        proof {
            lemma_assoc_map_contains(self.entries_seq(), m);
        }
        None
    }

    /// Insert a player under a fresh moniker.
    pub fn insert(&mut self, m: Moniker, p: PlayerObject)
        requires
            old(self).wf(),
            !old(self).map().contains_key(m),
        ensures
            final(self).wf(),
            final(self).map() == old(self).map().insert(m, p),
            final(self).entries_seq() == old(self).entries_seq().push((m, p)),
    {
        proof {
            lemma_assoc_map_contains(self.entries_seq(), m);
            lemma_assoc_map_push(self.entries_seq(), m, p);
        }
        self.entries.push((m, p));
    }

    /// Remove the player under `m`, reporting whether one was there.
    pub fn remove(&mut self, m: Moniker) -> (r: bool)
        requires
            old(self).wf(),
        ensures
            final(self).wf(),
            r == old(self).map().contains_key(m),
            final(self).map() == old(self).map().remove(m),
    {
        let n = self.entries.len();
        let mut i: usize = 0;
        while i < n
            invariant
                *self == *old(self),
                n == self.entries_seq().len(),
                i <= n,
                self.wf(),
                forall|a: int| 0 <= a < i ==> (#[trigger] self.entries_seq()[a]).0 != m,
            decreases n - i,
        {
            if self.entries[i].0 == m {
                proof {
                    lemma_assoc_map_contains(self.entries_seq(), m);
                    lemma_assoc_map_remove(self.entries_seq(), i as int);
                    crate::table::lemma_distinct_remove(self.entries_seq(), i as int);
                }
                self.entries.remove(i);
                return true;
            }
            i = i + 1;
        }
        proof {
            lemma_assoc_map_contains(self.entries_seq(), m);
            assert(self.map().remove(m) =~= self.map());
        }
        false
    }

    /// Overwrite the state of the player under `m`.
    pub fn update(&mut self, m: Moniker, p: PlayerObject)
        requires
            old(self).wf(),
            old(self).map().contains_key(m),
        ensures
            final(self).wf(),
            final(self).map() == old(self).map().insert(m, p),
    {
        let n = self.entries.len();
        let mut i: usize = 0;
        proof {
            lemma_assoc_map_contains(self.entries_seq(), m);
        }
        while i < n
            invariant
                *self == *old(self),
                n == self.entries_seq().len(),
                i <= n,
                self.wf(),
                exists|a: int| 0 <= a < n && (#[trigger] self.entries_seq()[a]).0 == m,
                forall|a: int| 0 <= a < i ==> (#[trigger] self.entries_seq()[a]).0 != m,
            decreases n - i,
        {
            if self.entries[i].0 == m {
                proof {
                    lemma_assoc_map_update(self.entries_seq(), i as int, p);
                    crate::table::lemma_distinct_update(self.entries_seq(), i as int, p);
                }
                self.entries.set(i, (m, p));
                return ;
            }
            i = i + 1;
        }
    }

    /// The moniker of some player standing at `c`, if any.
    pub fn player_at(&self, c: Coord2D) -> (r: Option<Moniker>)
        requires
            self.wf(),
        ensures
            r is Some ==> self.map().contains_key(r->Some_0) && self.map()[r->Some_0].coord == c,
            r is None ==> !self.some_player_at(c),
            (r is Some) == self.some_player_at(c),
    {
        let n = self.entries.len();
        let mut i: usize = 0;
        while i < n
            invariant
                n == self.entries_seq().len(),
                i <= n,
                self.wf(),
                forall|a: int| 0 <= a < i ==> (#[trigger] self.entries_seq()[a]).1.coord != c,
            decreases n - i,
        {
            if self.entries[i].1.coord == c {
                proof {
                    lemma_assoc_map_index(self.entries_seq(), i as int);
                    assert(self.some_player_at(c)) by {
                        let w = self.entries_seq()[i as int].0;
                        assert(self.map().contains_key(w) && self.map()[w].coord == c);
                    }
                }
                return Some(self.entries[i].0);
            }
            i = i + 1;
        }
        proof {
            self.lemma_entries_map();
            assert forall|m: Moniker| #[trigger]
                self.map().contains_key(m) implies self.map()[m].coord != c by {
                let a = choose|a: int|
                    0 <= a < self.entries_seq().len() && (#[trigger] self.entries_seq()[a]).0 == m;
                lemma_assoc_map_index(self.entries_seq(), a);
            }
        }
        None
    }

    /// An identical copy of the registry.
    pub fn duplicate(&self) -> (t: PlayerTable)
        ensures
            t.entries_seq() == self.entries_seq(),
            t.map() == self.map(),
            t.wf() == self.wf(),
    {
        let n = self.entries.len();
        let mut v: Vec<(Moniker, PlayerObject)> = Vec::new();
        let mut i: usize = 0;
        while i < n
            invariant
                n == self.entries_seq().len(),
                i <= n,
                v@ == self.entries_seq().take(i as int),
            decreases n - i,
        {
            v.push(self.entries[i]);
            proof {
                assert(v@ =~= self.entries_seq().take(i + 1));
            }
            i = i + 1;
        }
        proof {
            assert(v@ =~= self.entries_seq());
        }
        PlayerTable { entries: v }
    }
}

} // verus!
