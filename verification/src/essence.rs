//! The essence: the minimal durable state from which the full world model is
//! regenerated — players, the wall seed, the wall overrides, the pickup
//! coordinates and the synchronized generator's state.

use vstd::prelude::*;

use crate::grid::{on_boundary, Coord2D, HEIGHT, WIDTH};
use crate::overrides::OverrideTable;
use crate::player::{Moniker, PlayerObject, PlayerTable, POWER_LIMIT};
use crate::rng::LCGenerator;
use crate::walls::{default_wall, WallSeed};

verus! {

/// How many power pickups the world keeps in play.
pub const NUM_POWER_BLOBS: u8 = 3;

/// The charge a player joins with.
pub const INITIAL_CHARGE: u16 = 3;

/// The soundness of the world data itself: players on distinct in-bounds
/// cells with bounded charge and not on a pickup, pickups on distinct
/// in-bounds cells, overrides interior, the seed usable.
pub open spec fn world_data_wf(
    players: Map<Moniker, PlayerObject>,
    overrides: Map<Coord2D, bool>,
    blobs: Seq<Coord2D>,
    seed: WallSeed,
) -> bool {
    &&& !seed.is_all_zero()
    &&& forall|m: Moniker|
        #[trigger] players.contains_key(m) ==> (players[m].coord.in_bounds() && players[m].charge
            <= POWER_LIMIT)
    &&& forall|m1: Moniker, m2: Moniker|
        #![trigger players.contains_key(m1), players.contains_key(m2)]
        players.contains_key(m1) && players.contains_key(m2) && m1 != m2 ==> players[m1].coord
            != players[m2].coord
    &&& blobs.no_duplicates()
    &&& forall|i: int| 0 <= i < blobs.len() ==> (#[trigger] blobs[i]).in_bounds()
    &&& forall|m: Moniker|
        #[trigger] players.contains_key(m) ==> !blobs.contains(players[m].coord)
    &&& forall|c: Coord2D| #[trigger] overrides.contains_key(c) ==> (c.in_bounds() && !on_boundary(c))
}

/// What [`GameStateEssence::from_parts`] accepts, stated over the plain
/// inputs: distinct keys and sound world data.
pub open spec fn parts_wf(
    players: Seq<(Moniker, PlayerObject)>,
    seed: WallSeed,
    overrides: Seq<(Coord2D, bool)>,
    blobs: Seq<Coord2D>,
) -> bool {
    &&& crate::table::distinct_keys(players)
    &&& crate::table::distinct_keys(overrides)
    &&& world_data_wf(
        crate::table::assoc_map(players),
        crate::table::assoc_map(overrides),
        blobs,
        seed,
    )
}

/// Everything that cannot be regenerated: players, the wall seed, the wall
/// overrides, the pickup coordinates and the synchronized generator's state.
pub struct GameStateEssence {
    players: PlayerTable,
    wall_default_seed: WallSeed,
    wall_override: OverrideTable,
    power_blobs: Vec<Coord2D>,
    sync_rng: LCGenerator,
}

impl GameStateEssence {
    pub closed spec fn player_table(self) -> PlayerTable {
        self.players
    }

    pub closed spec fn override_table(self) -> OverrideTable {
        self.wall_override
    }

    pub closed spec fn blobs(self) -> Seq<Coord2D> {
        self.power_blobs@
    }

    pub closed spec fn seed(self) -> WallSeed {
        self.wall_default_seed
    }

    pub closed spec fn rng(self) -> LCGenerator {
        self.sync_rng
    }

    /// The registered players, by moniker.
    pub open spec fn players(self) -> Map<Moniker, PlayerObject> {
        self.player_table().map()
    }

    /// The recorded wall overrides, by coordinate.
    pub open spec fn overrides(self) -> Map<Coord2D, bool> {
        self.override_table().map()
    }

    /// The effective wall state at `c`: the override if one is recorded,
    /// else the seed's default layer.
    pub open spec fn wall_at(self, c: Coord2D) -> bool {
        if self.overrides().contains_key(c) {
            self.overrides()[c]
        } else {
            default_wall(self.seed(), c)
        }
    }

    /// The essence's own invariant: registries well formed, the seed usable,
    /// and the world data sound (see [`world_data_wf`]).
    pub open spec fn wf(self) -> bool {
        &&& self.player_table().wf()
        &&& self.override_table().wf()
        &&& self.rng().wf()
        &&& world_data_wf(self.players(), self.overrides(), self.blobs(), self.seed())
    }

    /// Assemble an essence from plain values, validating the invariant; the
    /// generator's seed word is reduced into range. Refused exactly when
    /// one of the listed checks fails.
    pub fn from_parts(
        players: Vec<(Moniker, PlayerObject)>,
        seed: WallSeed,
        overrides: Vec<(Coord2D, bool)>,
        blobs: Vec<Coord2D>,
        rng_seed: u64,
    ) -> (r: Option<GameStateEssence>)
        ensures
            r is Some <==> parts_wf(players@, seed, overrides@, blobs@),
            r is Some ==> {
                &&& r->Some_0.wf()
                &&& r->Some_0.player_table().entries_seq() == players@
                &&& r->Some_0.override_table().entries_seq() == overrides@
                &&& r->Some_0.blobs() == blobs@
                &&& r->Some_0.seed() == seed
                &&& r->Some_0.rng().state() == rng_seed % crate::rng::LCG_M
            },
    {
        if seed.all_zero() {
            return None;
        }
        let table = match PlayerTable::from_entries(players) {
            Some(t) => t,
            None => {
                return None;
            },
        };
        let odict = match OverrideTable::from_entries(overrides) {
            Some(t) => t,
            None => {
                return None;
            },
        };
        let essence = GameStateEssence {
            players: table,
            wall_default_seed: seed,
            wall_override: odict,
            power_blobs: blobs,
            sync_rng: LCGenerator::from_seed(rng_seed),
        };
        if essence.check_wf() {
            Some(essence)
        } else {
            None
        }
    }

    /// Decide the rest of [`GameStateEssence::wf`] once the registries are
    /// known well formed and the seed non-zero.
    fn check_wf(&self) -> (r: bool)
        requires
            self.player_table().wf(),
            self.override_table().wf(),
            !self.seed().is_all_zero(),
            self.rng().wf(),
        ensures
            r == self.wf(),
    {
        proof {
            self.players.lemma_entries_map();
        }
        let pn = self.players.entries().len();
        let mut i: usize = 0;
        // players: in bounds, bounded charge, distinct coords, not on a pickup
        while i < pn
            invariant
                self.player_table().wf(),
                pn == self.player_table().entries_seq().len(),
                i <= pn,
                forall|a: int|
                    0 <= a < i ==> {
                        &&& (#[trigger] self.player_table().entries_seq()[a]).1.coord.in_bounds()
                        &&& self.player_table().entries_seq()[a].1.charge <= POWER_LIMIT
                        &&& !self.blobs().contains(self.player_table().entries_seq()[a].1.coord)
                    },
                forall|a: int, b: int|
                    0 <= a < i && a < b < pn ==> (#[trigger] self.player_table().entries_seq()[a]).1.coord
                        != (#[trigger] self.player_table().entries_seq()[b]).1.coord,
            decreases pn - i,
        {
            let entry = self.players.entries()[i];
            if !(entry.1.coord.x < WIDTH && entry.1.coord.y < HEIGHT) {
                proof {
                    self.players.lemma_entries_map();
                }
                return false;
            }
            if entry.1.charge > POWER_LIMIT {
                proof {
                    self.players.lemma_entries_map();
                }
                return false;
            }
            if self.blob_scan(entry.1.coord) {
                proof {
                    self.players.lemma_entries_map();
                }
                return false;
            }
            let mut j: usize = i + 1;
            while j < pn
                invariant
                    self.player_table().wf(),
                    pn == self.player_table().entries_seq().len(),
                    i < j <= pn,
                    i < pn,
                    forall|b: int|
                        i < b < j ==> (#[trigger] self.player_table().entries_seq()[b]).1.coord
                            != self.player_table().entries_seq()[i as int].1.coord,
                decreases pn - j,
            {
                if self.players.entries()[j].1.coord == self.players.entries()[i].1.coord {
                    proof {
                        self.players.lemma_entries_map();
                        let sq = self.player_table().entries_seq();
                        assert(self.players().contains_key(sq[i as int].0));
                        assert(self.players().contains_key(sq[j as int].0));
                        assert(sq[i as int].0 != sq[j as int].0);
                    }
                    return false;
                }
                j = j + 1;
            }
            i = i + 1;
        }
        // pickups: in bounds and pairwise distinct
        let bn = self.power_blobs.len();
        let mut i: usize = 0;
        while i < bn
            invariant
                bn == self.blobs().len(),
                i <= bn,
                forall|a: int| 0 <= a < i ==> (#[trigger] self.blobs()[a]).in_bounds(),
                forall|a: int, b: int|
                    0 <= a < i && a < b < bn ==> #[trigger] self.blobs()[a] != #[trigger] self.blobs()[b],
            decreases bn - i,
        {
            let c = self.power_blobs[i];
            if !(c.x < WIDTH && c.y < HEIGHT) {
                return false;
            }
            let mut j: usize = i + 1;
            while j < bn
                invariant
                    bn == self.blobs().len(),
                    i < j <= bn,
                    i < bn,
                    forall|b: int| i < b < j ==> #[trigger] self.blobs()[b] != self.blobs()[i as int],
                decreases bn - j,
            {
                if self.power_blobs[j] == self.power_blobs[i] {
                    proof {
                        assert(self.blobs()[j as int] == self.blobs()[i as int]);
                    }
                    return false;
                }
                j = j + 1;
            }
            i = i + 1;
        }
        // overrides: interior
        let on = self.wall_override.entries().len();
        let mut i: usize = 0;
        while i < on
            invariant
                self.override_table().wf(),
                on == self.override_table().entries_seq().len(),
                i <= on,
                forall|a: int|
                    0 <= a < i ==> {
                        &&& (#[trigger] self.override_table().entries_seq()[a]).0.in_bounds()
                        &&& !on_boundary(self.override_table().entries_seq()[a].0)
                    },
            decreases on - i,
        {
            let c = self.wall_override.entries()[i].0;
            if !(c.x < WIDTH && c.y < HEIGHT) || crate::grid::coord_on_boundary(c) {
                proof {
                    lemma_override_entry(self.override_table(), i as int);
                }
                return false;
            }
            i = i + 1;
        }
        proof {
            self.lemma_check_wf_bridge();
        }
        true
    }

    /// Bridge from per-entry facts to the map-level clauses of `wf`.
    proof fn lemma_check_wf_bridge(self)
        requires
            self.player_table().wf(),
            self.override_table().wf(),
            !self.seed().is_all_zero(),
            self.rng().wf(),
            forall|a: int|
                0 <= a < self.player_table().entries_seq().len() ==> {
                    &&& (#[trigger] self.player_table().entries_seq()[a]).1.coord.in_bounds()
                    &&& self.player_table().entries_seq()[a].1.charge <= POWER_LIMIT
                    &&& !self.blobs().contains(self.player_table().entries_seq()[a].1.coord)
                },
            forall|a: int, b: int|
                0 <= a < self.player_table().entries_seq().len() && a < b
                    < self.player_table().entries_seq().len() ==> (
                #[trigger] self.player_table().entries_seq()[a]).1.coord != (
                #[trigger] self.player_table().entries_seq()[b]).1.coord,
            forall|a: int| 0 <= a < self.blobs().len() ==> (#[trigger] self.blobs()[a]).in_bounds(),
            forall|a: int, b: int|
                0 <= a < self.blobs().len() && a < b < self.blobs().len() ==> #[trigger] self.blobs()[a]
                    != #[trigger] self.blobs()[b],
            forall|a: int|
                0 <= a < self.override_table().entries_seq().len() ==> {
                    &&& (#[trigger] self.override_table().entries_seq()[a]).0.in_bounds()
                    &&& !on_boundary(self.override_table().entries_seq()[a].0)
                },
        ensures
            self.wf(),
    {
        self.players.lemma_entries_map();
        let psq = self.player_table().entries_seq();
        assert forall|m: Moniker| #[trigger]
            self.players().contains_key(m) implies (self.players()[m].coord.in_bounds()
            && self.players()[m].charge <= POWER_LIMIT && !self.blobs().contains(
            self.players()[m].coord,
        )) by {
            let a = choose|a: int| 0 <= a < psq.len() && (#[trigger] psq[a]).0 == m;
            assert(self.players()[m] == psq[a].1);
        }
        assert forall|m1: Moniker, m2: Moniker|
            self.players().contains_key(m1) && self.players().contains_key(m2) && m1
                != m2 implies self.players()[m1].coord != self.players()[m2].coord by {
            let a = choose|a: int| 0 <= a < psq.len() && (#[trigger] psq[a]).0 == m1;
            let b = choose|b: int| 0 <= b < psq.len() && (#[trigger] psq[b]).0 == m2;
            assert(self.players()[m1] == psq[a].1);
            assert(self.players()[m2] == psq[b].1);
            if a < b {
                assert(psq[a].1.coord != psq[b].1.coord);
            } else {
                assert(psq[b].1.coord != psq[a].1.coord);
            }
        }
        assert(self.blobs().no_duplicates()) by {
            assert forall|a: int, b: int|
                0 <= a < self.blobs().len() && 0 <= b < self.blobs().len() && a
                    != b implies self.blobs()[a] != self.blobs()[b] by {
                if a < b {
                    assert(self.blobs()[a] != self.blobs()[b]);
                } else {
                    assert(self.blobs()[b] != self.blobs()[a]);
                }
            }
        }
        assert forall|c: Coord2D| #[trigger]
            self.overrides().contains_key(c) implies (c.in_bounds() && !on_boundary(c)) by {
            crate::table::lemma_assoc_map_contains(self.override_table().entries_seq(), c);
            let a = choose|a: int|
                0 <= a < self.override_table().entries_seq().len() && (
                #[trigger] self.override_table().entries_seq()[a]).0 == c;
        }
    }

    /// Whether a pickup sits at `c` (a plain scan).
    fn blob_scan(&self, c: Coord2D) -> (r: bool)
        ensures
            r == self.blobs().contains(c),
    {
        let n = self.power_blobs.len();
        let mut i: usize = 0;
        while i < n
            invariant
                n == self.blobs().len(),
                i <= n,
                forall|a: int| 0 <= a < i ==> #[trigger] self.blobs()[a] != c,
            decreases n - i,
        {
            if self.power_blobs[i] == c {
                return true;
            }
            i = i + 1;
        }
        false
    }

    /// Borrow the player registry.
    pub fn player_table_ref(&self) -> (r: &PlayerTable)
        ensures
            *r == self.player_table(),
    {
        &self.players
    }

    /// Borrow the override layer.
    pub fn override_table_ref(&self) -> (r: &OverrideTable)
        ensures
            *r == self.override_table(),
    {
        &self.wall_override
    }

    /// Borrow the player registry for mutation; nothing else changes.
    pub(crate) fn player_table_mut(&mut self) -> (r: &mut PlayerTable)
        ensures
            *r == old(self).player_table(),
            final(self).player_table() == *final(r),
            final(self).override_table() == old(self).override_table(),
            final(self).blobs() == old(self).blobs(),
            final(self).seed() == old(self).seed(),
            final(self).rng() == old(self).rng(),
    {
        &mut self.players
    }

    /// Borrow the override layer for mutation; nothing else changes.
    pub(crate) fn override_table_mut(&mut self) -> (r: &mut OverrideTable)
        ensures
            *r == old(self).override_table(),
            final(self).override_table() == *final(r),
            final(self).player_table() == old(self).player_table(),
            final(self).blobs() == old(self).blobs(),
            final(self).seed() == old(self).seed(),
            final(self).rng() == old(self).rng(),
    {
        &mut self.wall_override
    }

    /// Borrow the pickup list for mutation; nothing else changes.
    pub(crate) fn blobs_mut(&mut self) -> (r: &mut Vec<Coord2D>)
        ensures
            r@ == old(self).blobs(),
            final(self).blobs() == final(r)@,
            final(self).player_table() == old(self).player_table(),
            final(self).override_table() == old(self).override_table(),
            final(self).seed() == old(self).seed(),
            final(self).rng() == old(self).rng(),
    {
        &mut self.power_blobs
    }

    /// Borrow the synchronized generator for mutation; nothing else changes.
    pub(crate) fn rng_mut(&mut self) -> (r: &mut LCGenerator)
        ensures
            *r == old(self).rng(),
            final(self).rng() == *final(r),
            final(self).player_table() == old(self).player_table(),
            final(self).override_table() == old(self).override_table(),
            final(self).blobs() == old(self).blobs(),
            final(self).seed() == old(self).seed(),
    {
        &mut self.sync_rng
    }

    /// A copy of the synchronized generator (to restore on a rolled-back
    /// mutation).
    pub(crate) fn rng_copy(&self) -> (r: LCGenerator)
        ensures
            r == self.rng(),
    {
        self.sync_rng
    }

    /// Restore the synchronized generator; nothing else changes.
    pub(crate) fn set_rng(&mut self, g: LCGenerator)
        ensures
            final(self).rng() == g,
            final(self).player_table() == old(self).player_table(),
            final(self).override_table() == old(self).override_table(),
            final(self).blobs() == old(self).blobs(),
            final(self).seed() == old(self).seed(),
    {
        self.sync_rng = g;
    }

    /// The player entries, for carrying the essence to the wire.
    pub fn players_entries(&self) -> (r: &Vec<(Moniker, PlayerObject)>)
        ensures
            r@ == self.player_table().entries_seq(),
    {
        self.players.entries()
    }

    /// The override entries, for carrying the essence to the wire.
    pub fn override_entries(&self) -> (r: &Vec<(Coord2D, bool)>)
        ensures
            r@ == self.override_table().entries_seq(),
    {
        self.wall_override.entries()
    }

    /// The pickup coordinates, for carrying the essence to the wire.
    pub fn blob_coords(&self) -> (r: &Vec<Coord2D>)
        ensures
            r@ == self.blobs(),
    {
        &self.power_blobs
    }

    /// The wall seed, for carrying the essence to the wire.
    pub fn wall_seed(&self) -> (r: WallSeed)
        ensures
            r == self.seed(),
    {
        self.wall_default_seed
    }

    /// The generator's state, for carrying the essence to the wire.
    pub fn rng_state(&self) -> (r: u64)
        requires
            self.rng().wf(),
        ensures
            r == self.rng().state(),
            r < crate::rng::LCG_M,
    {
        self.sync_rng.state_word()
    }

    /// An identical copy of the essence.
    pub fn duplicate(&self) -> (r: GameStateEssence)
        ensures
            r.player_table().entries_seq() == self.player_table().entries_seq(),
            r.player_table().map() == self.player_table().map(),
            r.override_table().entries_seq() == self.override_table().entries_seq(),
            r.override_table().map() == self.override_table().map(),
            r.blobs() == self.blobs(),
            r.seed() == self.seed(),
            r.rng() == self.rng(),
            r.wf() == self.wf(),
    {
        let mut blobs: Vec<Coord2D> = Vec::new();
        let n = self.power_blobs.len();
        let mut i: usize = 0;
        while i < n
            invariant
                n == self.blobs().len(),
                i <= n,
                blobs@ == self.blobs().take(i as int),
            decreases n - i,
        {
            blobs.push(self.power_blobs[i]);
            proof {
                assert(blobs@ =~= self.blobs().take(i + 1));
            }
            i = i + 1;
        }
        proof {
            assert(blobs@ =~= self.blobs());
        }
        GameStateEssence {
            players: self.players.duplicate(),
            wall_default_seed: self.wall_default_seed,
            wall_override: self.wall_override.duplicate(),
            power_blobs: blobs,
            sync_rng: self.sync_rng,
        }
    }
}

/// A fact about one override entry, lifted to the map.
proof fn lemma_override_entry(t: OverrideTable, i: int)
    requires
        t.wf(),
        0 <= i < t.entries_seq().len(),
    ensures
        t.map().contains_key(t.entries_seq()[i].0),
        t.map()[t.entries_seq()[i].0] == t.entries_seq()[i].1,
{
    crate::table::lemma_assoc_map_index(t.entries_seq(), i);
}

} // verus!
