//! The sparse wall-override layer: cells where a wall has been pushed away
//! or pushed into since the default layer was generated, keyed by coordinate.

use vstd::prelude::*;

use crate::grid::Coord2D;
use crate::table::{assoc_map, distinct_keys, lemma_assoc_map_contains, lemma_assoc_map_index,
    lemma_assoc_map_push, lemma_assoc_map_update, lemma_distinct_update};

verus! {

/// Wall overrides: an association vector with pairwise-distinct coordinates,
/// abstracted as a `Map<Coord2D, bool>`.
pub struct OverrideTable {
    entries: Vec<(Coord2D, bool)>,
}

impl OverrideTable {
    /// The raw entries, in insertion order.
    pub closed spec fn entries_seq(self) -> Seq<(Coord2D, bool)> {
        self.entries@
    }

    /// The map this layer denotes.
    pub open spec fn map(self) -> Map<Coord2D, bool> {
        assoc_map(self.entries_seq())
    }

    /// No two entries share a coordinate.
    pub open spec fn wf(self) -> bool {
        distinct_keys(self.entries_seq())
    }

    pub fn new() -> (t: OverrideTable)
        ensures
            t.wf(),
            t.map() == Map::<Coord2D, bool>::empty(),
            t.entries_seq() == Seq::<(Coord2D, bool)>::empty(),
    {
        OverrideTable { entries: Vec::new() }
    }

    /// Build the layer from plain entries; refused unless the coordinates are
    /// pairwise distinct.
    pub fn from_entries(entries: Vec<(Coord2D, bool)>) -> (t: Option<OverrideTable>)
        ensures
            t is Some <==> distinct_keys(entries@),
            t is Some ==> {
                &&& t->Some_0.wf()
                &&& t->Some_0.entries_seq() == entries@
            },
    {
        let n = entries.len();
        let mut i: usize = 0;
        while i < n
            invariant
                n == entries@.len(),
                i <= n,
                forall|a: int, b: int|
                    0 <= a < i && a < b < n ==> (#[trigger] entries@[a]).0 != (#[trigger] entries@[b]).0,
            decreases n - i,
        {
            let mut j: usize = i + 1;
            while j < n
                invariant
                    n == entries@.len(),
                    i < j <= n,
                    i < n,
                    forall|b: int| i < b < j ==> (#[trigger] entries@[b]).0 != entries@[i as int].0,
                decreases n - j,
            {
                if entries[j].0 == entries[i].0 {
                    return None;
                }
                j = j + 1;
            }
            i = i + 1;
        }
        assert(distinct_keys(entries@)) by {
            assert(forall|a: int, b: int|
                0 <= a < entries@.len() && 0 <= b < entries@.len() && a != b ==> ((#[trigger] entries@[a]).0
                    != (#[trigger] entries@[b]).0));
        }
        Some(OverrideTable { entries })
    }

    /// The raw entries, for carrying the layer to the wire.
    pub fn entries(&self) -> (r: &Vec<(Coord2D, bool)>)
        ensures
            r@ == self.entries_seq(),
    {
        &self.entries
    }

    /// The override recorded for `c`, if any.
    pub fn get(&self, c: Coord2D) -> (r: Option<bool>)
        requires
            self.wf(),
        ensures
            r is Some <==> self.map().contains_key(c),
            r is Some ==> r->Some_0 == self.map()[c],
    {
        let n = self.entries.len();
        let mut i: usize = 0;
        while i < n
            invariant
                n == self.entries_seq().len(),
                i <= n,
                self.wf(),
                forall|a: int| 0 <= a < i ==> (#[trigger] self.entries_seq()[a]).0 != c,
            decreases n - i,
        {
            if self.entries[i].0 == c {
                proof {
                    lemma_assoc_map_index(self.entries_seq(), i as int);
                }
                return Some(self.entries[i].1);
            }
            i = i + 1;
        }
        proof {
            lemma_assoc_map_contains(self.entries_seq(), c);
        }
        None
    }

    /// Record that the effective wall state at `c` is `v`, inserting or
    /// overwriting the entry for `c`.
    pub fn set(&mut self, c: Coord2D, v: bool)
        requires
            old(self).wf(),
        ensures
            final(self).wf(),
            final(self).map() == old(self).map().insert(c, v),
    {
        let n = self.entries.len();
        let mut i: usize = 0;
        while i < n
            invariant
                *self == *old(self),
                n == self.entries_seq().len(),
                i <= n,
                self.wf(),
                forall|a: int| 0 <= a < i ==> (#[trigger] self.entries_seq()[a]).0 != c,
            decreases n - i,
        {
            if self.entries[i].0 == c {
                proof {
                    lemma_assoc_map_update(self.entries_seq(), i as int, v);
                    lemma_distinct_update(self.entries_seq(), i as int, v);
                }
                self.entries.set(i, (c, v));
                return ;
            }
            i = i + 1;
        }
        proof {
            lemma_assoc_map_contains(self.entries_seq(), c);
            lemma_assoc_map_push(self.entries_seq(), c, v);
        }
        self.entries.push((c, v));
    }

    /// An identical copy of the layer.
    pub fn duplicate(&self) -> (t: OverrideTable)
        ensures
            t.entries_seq() == self.entries_seq(),
            t.map() == self.map(),
            t.wf() == self.wf(),
    {
        let n = self.entries.len();
        let mut v: Vec<(Coord2D, bool)> = Vec::new();
        let mut i: usize = 0;
        while i < n
            invariant
                n == self.entries_seq().len(),
                i <= n,
                v@ == self.entries_seq().take(i as int),
            decreases n - i,
        {
            v.push(self.entries[i]);
            proof {
                assert(v@ =~= self.entries_seq().take(i + 1));
            }
            i = i + 1;
        }
        proof {
            assert(v@ =~= self.entries_seq());
        }
        OverrideTable { entries: v }
    }
}

} // verus!
