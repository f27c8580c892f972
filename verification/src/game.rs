//! The world model: a grid of pushable walls, players and power pickups,
//! regenerated from its essence and mutated by the movement rules. The
//! global invariant: every coordinate holds at most one of a player, a wall
//! and a pickup, and the grid's boundary is always walled.

use vstd::prelude::*;

use crate::essence::GameStateEssence;
use crate::grid::{coord_would_exit, on_boundary, would_exit, Coord2D, Direction, HEIGHT,
    TOTAL_COORDS, WIDTH};
use crate::player::{Moniker, PlayerObject, POWER_LIMIT};
use crate::walls::{bitset_test, build_default_walls, wall_rows_match, WallSeed};

verus! {

/// How many power pickups the world keeps in play.
pub const NUM_POWER_BLOBS: u8 = 3;

/// The charge a player joins with.
pub const INITIAL_CHARGE: u16 = 3;

/// How many cells the trial-and-error spot search samples before giving up.
pub const SPOT_TRIALS: usize = 1000;

/// What a move request came to.
#[derive(Copy, Clone, PartialEq, Eq, Structural, Debug)]
pub enum MoveOutcome {
    /// The player moved (possibly pushing a wall or collecting a pickup).
    Moved,
    /// An illegal move; the world is untouched.
    Rejected,
    /// The move would have collected a pickup, but no replacement spot was
    /// found; the world is rolled back untouched. This surfaces a defect —
    /// a world so crowded that a pickup cannot respawn.
    RespawnExhausted,
}

/// The coordinate with row-major ordinal `n`.
pub open spec fn coord_of_index(n: int) -> Coord2D {
    Coord2D { x: (n % (WIDTH as int)) as u16, y: (n / (WIDTH as int)) as u16 }
}

/// How many of the first `n` coordinates (row-major) satisfy `p`.
pub open spec fn count_upto(p: spec_fn(Coord2D) -> bool, n: int) -> int
    decreases n,
{
    if n <= 0 {
        0
    } else {
        count_upto(p, n - 1) + (if p(coord_of_index(n - 1)) {
            1int
        } else {
            0int
        })
    }
}

/// The `k`-th coordinate clear of `occ`, scanning row-major from ordinal `n`.
pub open spec fn nth_clear(occ: spec_fn(Coord2D) -> bool, k: int, n: int) -> Option<Coord2D>
    decreases TOTAL_COORDS - n,
{
    if n < 0 || n >= TOTAL_COORDS as int {
        None
    } else if !occ(coord_of_index(n)) {
        if k == 0 {
            Some(coord_of_index(n))
        } else {
            nth_clear(occ, k - 1, n + 1)
        }
    } else {
        nth_clear(occ, k, n + 1)
    }
}

/// The bounded rejection search over `occ`, drawing coordinates from the
/// synchronized generator starting in `state`, from attempt `t` on: the
/// found cell (if any) and the generator state left behind.
pub open spec fn trial_search(occ: spec_fn(Coord2D) -> bool, state: u64, t: int) -> (
    Option<Coord2D>,
    u64,
)
    decreases SPOT_TRIALS - t,
{
    if t < 0 || t >= SPOT_TRIALS as int {
        (None, state)
    } else {
        let x = crate::rng::lcg_pick(state, WIDTH);
        let s1 = crate::rng::lcg_next(state);
        let y = crate::rng::lcg_pick(s1, HEIGHT);
        let s2 = crate::rng::lcg_next(s1);
        if !occ(Coord2D { x, y }) {
            (Some(Coord2D { x, y }), s2)
        } else {
            trial_search(occ, s2, t + 1)
        }
    }
}

/// The complement of a cell predicate.
pub open spec fn complement(p: spec_fn(Coord2D) -> bool) -> spec_fn(Coord2D) -> bool {
    |c: Coord2D| !p(c)
}

/// What the synchronized spot search yields — the chosen cell (if any) and
/// the generator state left behind — as a pure function of the emptiness
/// predicate (no wall, no player; it picks the strategy), the occupancy
/// predicate (nothing at all; it decides freeness), and the generator's
/// starting state. In the ordinal branch the index is drawn below the free
/// count, so there the search cannot miss.
pub open spec fn spot_outcome(
    emp: spec_fn(Coord2D) -> bool,
    occ: spec_fn(Coord2D) -> bool,
    state: u64,
) -> (Option<Coord2D>, u64) {
    let ne = count_upto(emp, TOTAL_COORDS as int);
    let nf = count_upto(complement(occ), TOTAL_COORDS as int);
    if ne * 25 > (TOTAL_COORDS as int) * 24 {
        (None, state)
    } else if ne * 5 > (TOTAL_COORDS as int) * 3 {
        if nf == 0 {
            (None, state)
        } else {
            (
                nth_clear(occ, crate::rng::lcg_pick_index(state, nf as usize) as int, 0),
                crate::rng::lcg_next(state),
            )
        }
    } else {
        trial_search(occ, state, 0)
    }
}

/// Pointwise-equal predicates count alike.
pub proof fn lemma_count_congruent(p1: spec_fn(Coord2D) -> bool, p2: spec_fn(Coord2D) -> bool, n: int)
    requires
        forall|c: Coord2D| #[trigger] p1(c) == p2(c),
    ensures
        count_upto(p1, n) == count_upto(p2, n),
    decreases n,
{
    if n > 0 {
        lemma_count_congruent(p1, p2, n - 1);
    }
}

/// Pointwise-equal occupancies select the same ordinal cell.
pub proof fn lemma_nth_clear_congruent(
    o1: spec_fn(Coord2D) -> bool,
    o2: spec_fn(Coord2D) -> bool,
    k: int,
    n: int,
)
    requires
        forall|c: Coord2D| #[trigger] o1(c) == o2(c),
    ensures
        nth_clear(o1, k, n) == nth_clear(o2, k, n),
    decreases TOTAL_COORDS - n,
{
    if 0 <= n < TOTAL_COORDS as int {
        if !o1(coord_of_index(n)) {
            if k != 0 {
                lemma_nth_clear_congruent(o1, o2, k - 1, n + 1);
            }
        } else {
            lemma_nth_clear_congruent(o1, o2, k, n + 1);
        }
    }
}

/// Pointwise-equal occupancies make the trial search agree.
pub proof fn lemma_trial_search_congruent(
    o1: spec_fn(Coord2D) -> bool,
    o2: spec_fn(Coord2D) -> bool,
    state: u64,
    t: int,
)
    requires
        forall|c: Coord2D| #[trigger] o1(c) == o2(c),
    ensures
        trial_search(o1, state, t) == trial_search(o2, state, t),
    decreases SPOT_TRIALS - t,
{
    if 0 <= t < SPOT_TRIALS as int {
        let x = crate::rng::lcg_pick(state, WIDTH);
        let s1 = crate::rng::lcg_next(state);
        let s2 = crate::rng::lcg_next(s1);
        if o1(Coord2D { x, y: crate::rng::lcg_pick(s1, HEIGHT) }) {
            lemma_trial_search_congruent(o1, o2, s2, t + 1);
        }
    }
}

/// Pointwise-equal predicates give the same spot outcome.
pub proof fn lemma_spot_outcome_congruent(
    e1: spec_fn(Coord2D) -> bool,
    o1: spec_fn(Coord2D) -> bool,
    e2: spec_fn(Coord2D) -> bool,
    o2: spec_fn(Coord2D) -> bool,
    state: u64,
)
    requires
        forall|c: Coord2D| #[trigger] e1(c) == e2(c),
        forall|c: Coord2D| #[trigger] o1(c) == o2(c),
    ensures
        spot_outcome(e1, o1, state) == spot_outcome(e2, o2, state),
{
    lemma_count_congruent(e1, e2, TOTAL_COORDS as int);
    assert forall|c: Coord2D| #[trigger] complement(o1)(c) == complement(o2)(c) by {}
    lemma_count_congruent(complement(o1), complement(o2), TOTAL_COORDS as int);
    let ne = count_upto(e1, TOTAL_COORDS as int);
    let nf = count_upto(complement(o1), TOTAL_COORDS as int);
    if ne * 25 > (TOTAL_COORDS as int) * 24 {
    } else if ne * 5 > (TOTAL_COORDS as int) * 3 {
        if nf != 0 {
            lemma_nth_clear_congruent(
                o1,
                o2,
                crate::rng::lcg_pick_index(state, nf as usize) as int,
                0,
            );
        }
    } else {
        lemma_trial_search_congruent(o1, o2, state, 0);
    }
}

/// The full world model: the essence plus the regenerated default wall
/// layer.
pub struct GameState {
    essence: GameStateEssence,
    wall_default: Vec<bitset::BitSet>,
}

impl GameState {
    pub closed spec fn essence_spec(self) -> GameStateEssence {
        self.essence
    }

    pub closed spec fn rows(self) -> Seq<bitset::BitSet> {
        self.wall_default@
    }

    /// The registered players, by moniker.
    pub open spec fn players(self) -> Map<Moniker, PlayerObject> {
        self.essence_spec().players()
    }

    /// The pickup coordinates.
    pub open spec fn blobs(self) -> Seq<Coord2D> {
        self.essence_spec().blobs()
    }

    /// The recorded wall overrides.
    pub open spec fn overrides(self) -> Map<Coord2D, bool> {
        self.essence_spec().overrides()
    }

    pub open spec fn seed(self) -> WallSeed {
        self.essence_spec().seed()
    }

    pub open spec fn rng_state(self) -> u64 {
        self.essence_spec().rng().state()
    }

    /// The effective wall state at `c`.
    pub open spec fn wall_at(self, c: Coord2D) -> bool {
        self.essence_spec().wall_at(c)
    }

    /// Some registered player stands at `c`.
    pub open spec fn some_player_at(self, c: Coord2D) -> bool {
        self.essence_spec().player_table().some_player_at(c)
    }

    /// A pickup sits at `c`.
    pub open spec fn blob_at(self, c: Coord2D) -> bool {
        self.blobs().contains(c)
    }

    /// A player, a wall or a pickup holds `c`.
    pub open spec fn occupied(self, c: Coord2D) -> bool {
        self.some_player_at(c) || self.wall_at(c) || self.blob_at(c)
    }

    /// [`GameState::cell_empty`] as a predicate value, for [`spot_outcome`].
    pub open spec fn empties(self) -> spec_fn(Coord2D) -> bool {
        |c: Coord2D| self.cell_empty(c)
    }

    /// [`GameState::occupied`] as a predicate value, for [`spot_outcome`].
    pub open spec fn occupancy(self) -> spec_fn(Coord2D) -> bool {
        |c: Coord2D| self.occupied(c)
    }

    /// The world invariant: a well-formed essence, a wall layer faithful to
    /// the seed, and players and pickups clear of walls. Together with the
    /// essence's clauses this puts at most one of a player, a wall and a
    /// pickup on every coordinate.
    pub open spec fn wf(self) -> bool {
        &&& self.essence_spec().wf()
        &&& wall_rows_match(self.rows(), self.seed())
        &&& forall|m: Moniker|
            #[trigger] self.players().contains_key(m) ==> !self.wall_at(self.players()[m].coord)
        &&& forall|i: int| 0 <= i < self.blobs().len() ==> !self.wall_at(#[trigger] self.blobs()[i])
    }

    /// The essence, for persisting or for a welcome message.
    pub fn get_essence(&self) -> (r: &GameStateEssence)
        ensures
            *r == self.essence_spec(),
    {
        &self.essence
    }

    pub fn num_players(&self) -> (n: usize)
        requires
            self.wf(),
        ensures
            n == self.players().dom().len(),
    {
        self.essence.player_table_ref().len()
    }

    /// Look up a registered player.
    pub fn get_player(&self, moniker: Moniker) -> (r: Option<PlayerObject>)
        requires
            self.wf(),
        ensures
            r is Some <==> self.players().contains_key(moniker),
            r is Some ==> r->Some_0 == self.players()[moniker],
    {
        self.essence.player_table_ref().get(moniker)
    }

    pub fn contains_player(&self, moniker: Moniker) -> (r: bool)
        ensures
            r == self.players().contains_key(moniker),
    {
        self.essence.player_table_ref().contains(moniker)
    }

    /// The effective wall test: the override layer if it speaks of `coord`,
    /// else the seed's default layer.
    pub fn is_wall_at(&self, coord: Coord2D) -> (r: bool)
        requires
            self.wf(),
            coord.in_bounds(),
        ensures
            r == self.wall_at(coord),
    {
        self.is_wall_at_raw(coord)
    }

    pub fn is_blob_at(&self, coord: Coord2D) -> (r: bool)
        ensures
            r == self.blob_at(coord),
    {
        let blobs = self.essence.blob_coords();
        let n = blobs.len();
        let mut i: usize = 0;
        while i < n
            invariant
                n == self.blobs().len(),
                blobs@ == self.blobs(),
                i <= n,
                forall|a: int| 0 <= a < i ==> #[trigger] self.blobs()[a] != coord,
            decreases n - i,
        {
            if blobs[i] == coord {
                return true;
            }
            i = i + 1;
        }
        false
    }

    fn is_player_at(&self, coord: Coord2D) -> (r: bool)
        requires
            self.wf(),
        ensures
            r == self.some_player_at(coord),
    {
        self.essence.player_table_ref().player_at(coord).is_some()
    }

    /// Whether anything (player, wall or pickup) holds `coord`.
    pub fn is_something_at(&self, coord: Coord2D) -> (r: bool)
        requires
            self.wf(),
            coord.in_bounds(),
        ensures
            r == self.occupied(coord),
    {
        self.is_player_at(coord) || self.is_wall_at(coord) || self.is_blob_at(coord)
    }

    /// Regenerate a world from its essence. Succeeds exactly when the
    /// essence's players and pickups are clear of its effective walls; the
    /// default layer is a pure function of the essence's seed.
    pub fn from_essence(essence: GameStateEssence) -> (r: Option<GameState>)
        requires
            essence.wf(),
        ensures
            r is Some <==> {
                &&& (forall|m: Moniker|
                    #[trigger] essence.players().contains_key(m) ==> !essence.wall_at(
                        essence.players()[m].coord,
                    ))
                &&& (forall|i: int|
                    0 <= i < essence.blobs().len() ==> !essence.wall_at(#[trigger] essence.blobs()[i]))
            },
            r is Some ==> {
                &&& r->Some_0.wf()
                &&& r->Some_0.essence_spec() == essence
            },
    {
        let rows = build_default_walls(essence.wall_seed());
        let g = GameState { essence, wall_default: rows };
        // the essence may disagree with the walls its seed derives: validate
        let pn = g.essence.player_table_ref().entries().len();
        let mut i: usize = 0;
        while i < pn
            invariant
                g.essence_spec() == essence,
                g.essence_spec().wf(),
                wall_rows_match(g.rows(), g.seed()),
                pn == g.essence_spec().player_table().entries_seq().len(),
                i <= pn,
                forall|a: int|
                    0 <= a < i ==> !g.wall_at(
                        (#[trigger] g.essence_spec().player_table().entries_seq()[a]).1.coord,
                    ),
            decreases pn - i,
        {
            let c = g.essence.player_table_ref().entries()[i].1.coord;
            proof {
                g.essence_spec().player_table().lemma_entries_map();
            }
            if g.is_wall_at_raw(c) {
                proof {
                    g.essence_spec().player_table().lemma_entries_map();
                    let sq = g.essence_spec().player_table().entries_seq();
                    assert(g.essence_spec().players().contains_key(sq[i as int].0));
                    assert(g.essence_spec().wall_at(g.essence_spec().players()[sq[i as int].0].coord));
                }
                return None;
            }
            i = i + 1;
        }
        let bn = g.essence.blob_coords().len();
        let mut i: usize = 0;
        while i < bn
            invariant
                g.essence_spec() == essence,
                g.essence_spec().wf(),
                wall_rows_match(g.rows(), g.seed()),
                bn == g.blobs().len(),
                i <= bn,
                forall|a: int| 0 <= a < i ==> !g.wall_at(#[trigger] g.blobs()[a]),
            decreases bn - i,
        {
            let c = g.essence.blob_coords()[i];
            if g.is_wall_at_raw(c) {
                return None;
            }
            i = i + 1;
        }
        proof {
            let sq = g.essence_spec().player_table().entries_seq();
            g.essence_spec().player_table().lemma_entries_map();
            assert forall|m: Moniker| #[trigger]
                g.players().contains_key(m) implies !g.wall_at(g.players()[m].coord) by {
                let a = choose|a: int| 0 <= a < sq.len() && (#[trigger] sq[a]).0 == m;
                assert(g.players()[m] == sq[a].1);
            }
        }
        Some(g)
    }

    /// The wall test used while the invariant is still being established:
    /// needs only a faithful wall layer and a well-formed essence.
    fn is_wall_at_raw(&self, coord: Coord2D) -> (r: bool)
        requires
            self.essence_spec().wf(),
            wall_rows_match(self.rows(), self.seed()),
            coord.in_bounds(),
        ensures
            r == self.wall_at(coord),
    {
        match self.essence.override_table_ref().get(coord) {
            Some(v) => v,
            None => bitset_test(&self.wall_default[coord.y as usize], coord.x as usize),
        }
    }

    /// A cell counts as empty when neither a wall nor a player holds it
    /// (pickups do not count; this mirrors how the spot-search strategy is
    /// chosen).
    pub open spec fn cell_empty(self, c: Coord2D) -> bool {
        !self.wall_at(c) && !self.some_player_at(c)
    }

    /// How many of the first `n` coordinates (row-major) are empty.
    pub open spec fn empty_upto(self, n: int) -> int {
        count_upto(|c: Coord2D| self.cell_empty(c), n)
    }

    /// How many of the first `n` coordinates (row-major) are entirely free.
    pub open spec fn free_upto(self, n: int) -> int {
        count_upto(|c: Coord2D| !self.occupied(c), n)
    }

    proof fn lemma_free_upto_mono(self, a: int, b: int)
        requires
            a <= b,
        ensures
            self.free_upto(a) <= self.free_upto(b),
        decreases b - a,
    {
        if a < b {
            self.lemma_free_upto_mono(a, b - 1);
        }
    }

    proof fn lemma_free_upto_nonneg(self, n: int)
        ensures
            self.free_upto(n) >= 0,
        decreases n,
    {
        if n > 0 {
            self.lemma_free_upto_nonneg(n - 1);
        }
    }

    /// The invariant does not depend on the generator: a state equal to a
    /// well-formed one in everything but the generator is well formed.
    proof fn lemma_wf_rng_only(pre: GameState, post: GameState)
        requires
            pre.wf(),
            post.essence_spec().player_table() == pre.essence_spec().player_table(),
            post.essence_spec().override_table() == pre.essence_spec().override_table(),
            post.blobs() == pre.blobs(),
            post.seed() == pre.seed(),
            post.rows() == pre.rows(),
            post.essence_spec().rng().wf(),
        ensures
            post.wf(),
            forall|c: Coord2D| post.occupied(c) == pre.occupied(c),
    {
        assert forall|c: Coord2D| post.occupied(c) == pre.occupied(c) by {
            assert(post.wall_at(c) == pre.wall_at(c));
            assert(post.some_player_at(c) == pre.some_player_at(c));
        }
        assert forall|m: Moniker| #[trigger]
            post.players().contains_key(m) implies !post.wall_at(post.players()[m].coord) by {
            assert(pre.players().contains_key(m));
            assert(post.wall_at(post.players()[m].coord) == pre.wall_at(pre.players()[m].coord));
        }
        assert forall|i: int| 0 <= i < post.blobs().len() implies !post.wall_at(
            #[trigger] post.blobs()[i],
        ) by {
            assert(!pre.wall_at(pre.blobs()[i]));
            assert(post.wall_at(post.blobs()[i]) == pre.wall_at(pre.blobs()[i]));
        }
    }

    /// States with the same occupancy have the same free counts.
    proof fn lemma_free_upto_congruent(a: GameState, b: GameState, n: int)
        requires
            forall|c: Coord2D| a.occupied(c) == b.occupied(c),
        ensures
            a.free_upto(n) == b.free_upto(n),
        decreases n,
    {
        if n > 0 {
            GameState::lemma_free_upto_congruent(a, b, n - 1);
        }
    }

    /// One free in-bounds cell makes the whole grid's free count positive.
    proof fn lemma_free_cell_positive(self, c: Coord2D)
        requires
            c.in_bounds(),
            !self.occupied(c),
        ensures
            self.free_upto(TOTAL_COORDS as int) >= 1,
    {
        let i = c.index();
        assert(0 <= i < TOTAL_COORDS as int);
        vstd::arithmetic::div_mod::lemma_fundamental_div_mod_converse_mod(
            i,
            WIDTH as int,
            c.y as int,
            c.x as int,
        );
        vstd::arithmetic::div_mod::lemma_fundamental_div_mod_converse_div(
            i,
            WIDTH as int,
            c.y as int,
            c.x as int,
        );
        assert(coord_of_index(i) == c);
        self.lemma_free_upto_nonneg(i);
        assert(self.free_upto(i + 1) >= 1);
        self.lemma_free_upto_mono(i + 1, TOTAL_COORDS as int);
    }

    /// Count the free cells: those holding nothing at all.
    fn num_free_coords(&self) -> (n: usize)
        requires
            self.wf(),
        ensures
            n == self.free_upto(TOTAL_COORDS as int),
            n <= TOTAL_COORDS,
    {
        let mut i: usize = 0;
        let mut seen: usize = 0;
        while i < TOTAL_COORDS
            invariant
                self.wf(),
                i <= TOTAL_COORDS,
                seen == self.free_upto(i as int),
                seen <= i,
            decreases TOTAL_COORDS - i,
        {
            let c = Coord2D::new((i % (WIDTH as usize)) as u16, (i / (WIDTH as usize)) as u16);
            proof {
                assert(c == coord_of_index(i as int));
                assert(i / (WIDTH as usize) < HEIGHT as usize) by {
                    assert(i < 660);
                }
            }
            if !self.is_something_at(c) {
                seen = seen + 1;
            }
            i = i + 1;
        }
        seen
    }

    /// Count the empty cells: those holding neither a wall nor a player.
    pub fn num_empty_coords(&self) -> (n: usize)
        requires
            self.wf(),
        ensures
            n == self.empty_upto(TOTAL_COORDS as int),
            n <= TOTAL_COORDS,
    {
        let mut i: usize = 0;
        let mut seen: usize = 0;
        while i < TOTAL_COORDS
            invariant
                self.wf(),
                i <= TOTAL_COORDS,
                seen == self.empty_upto(i as int),
                seen <= i,
            decreases TOTAL_COORDS - i,
        {
            let c = Coord2D::new((i % (WIDTH as usize)) as u16, (i / (WIDTH as usize)) as u16);
            proof {
                assert(c == coord_of_index(i as int));
                assert(i / (WIDTH as usize) < HEIGHT as usize) by {
                    assert(i < 660);
                }
            }
            let wall = self.is_wall_at(c);
            let player = self.essence.player_table_ref().player_at(c).is_some();
            if !wall && !player {
                seen = seen + 1;
            }
            i = i + 1;
        }
        seen
    }

    /// The `k`-th free cell in row-major order, if at least `k + 1` cells
    /// are free.
    fn nth_free(&self, k: usize) -> (r: Option<Coord2D>)
        requires
            self.wf(),
        ensures
            r == nth_clear(|c: Coord2D| self.occupied(c), k as int, 0),
            r is Some <==> k < self.free_upto(TOTAL_COORDS as int),
            r is Some ==> (r->Some_0.in_bounds() && !self.occupied(r->Some_0)),
    {
        let mut i: usize = 0;
        let mut seen: usize = 0;
        while i < TOTAL_COORDS
            invariant
                self.wf(),
                i <= TOTAL_COORDS,
                seen == self.free_upto(i as int),
                seen <= k,
                nth_clear(|c: Coord2D| self.occupied(c), k as int, 0) == nth_clear(
                    |c: Coord2D| self.occupied(c),
                    k - seen,
                    i as int,
                ),
            decreases TOTAL_COORDS - i,
        {
            let c = Coord2D::new((i % (WIDTH as usize)) as u16, (i / (WIDTH as usize)) as u16);
            proof {
                assert(c == coord_of_index(i as int));
                assert(i / (WIDTH as usize) < HEIGHT as usize) by {
                    assert(i < 660);
                }
            }
            if !self.is_something_at(c) {
                if seen == k {
                    proof {
                        self.lemma_free_upto_mono(i + 1, TOTAL_COORDS as int);
                        assert(nth_clear(|c2: Coord2D| self.occupied(c2), 0, i as int) == Some(c));
                    }
                    return Some(c);
                }
                seen = seen + 1;
            }
            i = i + 1;
        }
        proof {
            assert(nth_clear(|c2: Coord2D| self.occupied(c2), k - seen, TOTAL_COORDS as int) is None);
        }
        None
    }

    /// No pickups makes the free and empty counts coincide.
    /// The free count reads equally off the complemented occupancy.
    proof fn lemma_free_is_clear(self, n: int)
        ensures
            self.free_upto(n) == count_upto(complement(self.occupancy()), n),
        decreases n,
    {
        if n > 0 {
            self.lemma_free_is_clear(n - 1);
        }
    }

    /// Find a free cell with the process-wide generator: give up on a board
    /// that is almost all empty, pick an ordinal among the free cells when
    /// over three-fifths are empty, else sample cells until one is free (a
    /// bounded number of times). The draws come from the process-wide
    /// generator, so in the sampling branch nothing pins `None`; the give-up
    /// is deterministic, and the ordinal branch cannot miss.
    pub fn random_free_spot(&self) -> (r: Option<Coord2D>)
        requires
            self.wf(),
        ensures
            r is Some ==> (r->Some_0.in_bounds() && !self.occupied(r->Some_0)),
            self.free_upto(TOTAL_COORDS as int) == 0 ==> r is None,
            self.empty_upto(TOTAL_COORDS as int) * 25 > TOTAL_COORDS * 24 ==> r is None,
            (self.empty_upto(TOTAL_COORDS as int) * 25 <= TOTAL_COORDS * 24 && self.empty_upto(
                TOTAL_COORDS as int,
            ) * 5 > TOTAL_COORDS * 3 && self.free_upto(TOTAL_COORDS as int) > 0) ==> r is Some,
    {
        let ne = self.num_empty_coords();
        if ne * 25 > TOTAL_COORDS * 24 {
            // almost everything empty: the original declines to search
            None
        } else if ne * 5 > TOTAL_COORDS * 3 {
            // mostly empty: pick an ordinal among the free cells
            let nf = self.num_free_coords();
            if nf == 0 {
                return None;
            }
            let k = crate::rng::random_index(nf);
            self.nth_free(k)
        } else {
            // mostly full: trial and error
            let mut t: usize = 0;
            while t < SPOT_TRIALS
                invariant
                    self.wf(),
                    self.empty_upto(TOTAL_COORDS as int) * 25 <= TOTAL_COORDS * 24,
                    self.empty_upto(TOTAL_COORDS as int) * 5 <= TOTAL_COORDS * 3,
                decreases SPOT_TRIALS - t,
            {
                let c = Coord2D::new(crate::rng::random_u16(WIDTH), crate::rng::random_u16(HEIGHT));
                if !self.is_something_at(c) {
                    proof {
                        self.lemma_free_cell_positive(c);
                    }
                    return Some(c);
                }
                t = t + 1;
            }
            None
        }
    }

    /// As [`GameState::random_free_spot`], but drawing from the essence's
    /// synchronized generator: the chosen cell and the generator state left
    /// behind are exactly [`spot_outcome`] of the pre-state — a pure
    /// function of the essence, so the choice replays. Nothing but that
    /// generator's state changes.
    #[verifier::rlimit(100)]
    pub fn sync_random_free_spot(&mut self) -> (r: Option<Coord2D>)
        requires
            old(self).wf(),
        ensures
            final(self).wf(),
            ({
                let out = spot_outcome(
                    old(self).empties(),
                    old(self).occupancy(),
                    old(self).rng_state(),
                );
                r == out.0 && final(self).rng_state() == out.1
            }),
            r is Some ==> (r->Some_0.in_bounds() && !old(self).occupied(r->Some_0)),
            old(self).free_upto(TOTAL_COORDS as int) == 0 ==> r is None,
            final(self).players() == old(self).players(),
            final(self).blobs() == old(self).blobs(),
            final(self).overrides() == old(self).overrides(),
            final(self).seed() == old(self).seed(),
            final(self).rows() == old(self).rows(),
    {
        let ghost emp = old(self).empties();
        let ghost occ = old(self).occupancy();
        let ne = self.num_empty_coords();
        proof {
            lemma_count_congruent(|c: Coord2D| self.cell_empty(c), emp, TOTAL_COORDS as int);
        }
        if ne * 25 > TOTAL_COORDS * 24 {
            proof {
                assert(spot_outcome(emp, occ, old(self).rng_state()) == (
                    None::<Coord2D>,
                    old(self).rng_state(),
                ));
            }
            None
        } else if ne * 5 > TOTAL_COORDS * 3 {
            let nf = self.num_free_coords();
            proof {
                old(self).lemma_free_is_clear(TOTAL_COORDS as int);
            }
            if nf == 0 {
                proof {
                    assert(spot_outcome(emp, occ, old(self).rng_state()) == (
                        None::<Coord2D>,
                        old(self).rng_state(),
                    ));
                }
                return None;
            }
            let k = self.essence.rng_mut().pick_index(nf);
            proof {
                GameState::lemma_wf_rng_only(*old(self), *self);
                GameState::lemma_free_upto_congruent(*old(self), *self, TOTAL_COORDS as int);
            }
            let r = self.nth_free(k);
            proof {
                lemma_nth_clear_congruent(|c: Coord2D| self.occupied(c), occ, k as int, 0);
                assert(spot_outcome(emp, occ, old(self).rng_state()) == (
                    nth_clear(occ, k as int, 0),
                    crate::rng::lcg_next(old(self).rng_state()),
                ));
            }
            r
        } else {
            let mut t: usize = 0;
            while t < SPOT_TRIALS
                invariant
                    old(self).wf(),
                    self.wf(),
                    t <= SPOT_TRIALS,
                    self.blobs() == old(self).blobs(),
                    self.seed() == old(self).seed(),
                    self.rows() == old(self).rows(),
                    self.essence_spec().player_table() == old(self).essence_spec().player_table(),
                    self.essence_spec().override_table() == old(self).essence_spec().override_table(),
                    emp == old(self).empties(),
                    occ == old(self).occupancy(),
                    count_upto(emp, TOTAL_COORDS as int) * 25 <= TOTAL_COORDS * 24,
                    count_upto(emp, TOTAL_COORDS as int) * 5 <= TOTAL_COORDS * 3,
                    trial_search(occ, self.rng_state(), t as int) == trial_search(
                        occ,
                        old(self).rng_state(),
                        0,
                    ),
                decreases SPOT_TRIALS - t,
            {
                let ghost state_t = self.rng_state();
                let x = self.essence.rng_mut().pick(WIDTH);
                proof {
                    GameState::lemma_wf_rng_only(*old(self), *self);
                }
                let y = self.essence.rng_mut().pick(HEIGHT);
                proof {
                    GameState::lemma_wf_rng_only(*old(self), *self);
                }
                let c = Coord2D::new(x, y);
                if !self.is_something_at(c) {
                    proof {
                        assert(!old(self).occupied(c));
                        old(self).lemma_free_cell_positive(c);
                        assert(trial_search(occ, state_t, t as int) == (
                            Some(c),
                            self.rng_state(),
                        ));
                    }
                    return Some(c);
                }
                proof {
                    assert(trial_search(occ, state_t, t as int) == trial_search(
                        occ,
                        self.rng_state(),
                        t + 1,
                    ));
                }
                t = t + 1;
            }
            proof {
                assert(trial_search(occ, self.rng_state(), SPOT_TRIALS as int) == (
                    None::<Coord2D>,
                    self.rng_state(),
                ));
            }
            None
        }
    }

    /// Add a player at `coord` with the initial charge. Succeeds exactly
    /// when the moniker is free and nothing holds the in-bounds `coord`.
    pub fn try_add_player(&mut self, moniker: Moniker, coord: Coord2D) -> (r: bool)
        requires
            old(self).wf(),
        ensures
            final(self).wf(),
            r == (coord.in_bounds() && !old(self).players().contains_key(moniker) && !old(
                self,
            ).occupied(coord)),
            r ==> final(self).players() == old(self).players().insert(
                moniker,
                PlayerObject { coord, charge: INITIAL_CHARGE },
            ),
            !r ==> final(self).players() == old(self).players(),
            final(self).blobs() == old(self).blobs(),
            final(self).overrides() == old(self).overrides(),
            final(self).seed() == old(self).seed(),
            final(self).rng_state() == old(self).rng_state(),
            final(self).rows() == old(self).rows(),
    {
        if !(coord.x < WIDTH && coord.y < HEIGHT) {
            return false;
        }
        if self.contains_player(moniker) || self.is_something_at(coord) {
            return false;
        }
        let obj = PlayerObject { coord, charge: INITIAL_CHARGE };
        self.essence.player_table_mut().insert(moniker, obj);
        proof {
            assert forall|m: Moniker| #[trigger]
                self.players().contains_key(m) implies (self.players()[m].coord.in_bounds()
                && self.players()[m].charge <= POWER_LIMIT && !self.blobs().contains(
                self.players()[m].coord,
            ) && !self.wall_at(self.players()[m].coord)) by {
                if m != moniker {
                    assert(old(self).players().contains_key(m));
                }
            }
            assert forall|m1: Moniker, m2: Moniker|
                self.players().contains_key(m1) && self.players().contains_key(m2) && m1
                    != m2 implies self.players()[m1].coord != self.players()[m2].coord by {
                if m1 != moniker && m2 != moniker {
                    assert(old(self).players().contains_key(m1));
                    assert(old(self).players().contains_key(m2));
                } else if m1 == moniker {
                    assert(old(self).players().contains_key(m2));
                    assert(!old(self).some_player_at(coord));
                } else {
                    assert(old(self).players().contains_key(m1));
                    assert(!old(self).some_player_at(coord));
                }
            }
        }
        true
    }

    /// The two states agree on everything observable (walls, players,
    /// pickups, seed and generator alike).
    pub open spec fn same_world(self, other: GameState) -> bool {
        &&& self.players() == other.players()
        &&& self.blobs() == other.blobs()
        &&& self.overrides() == other.overrides()
        &&& self.seed() == other.seed()
        &&& self.rng_state() == other.rng_state()
        &&& self.rows() == other.rows()
    }

    /// On a well-formed world every boundary cell is a wall: overrides are
    /// interior and the default layer walls the whole frame.
    pub proof fn lemma_boundary_is_wall(self, c: Coord2D)
        requires
            self.wf(),
            on_boundary(c),
        ensures
            self.wall_at(c),
    {
    }

    /// Players never stand on the frame (it is walled, and they stand clear
    /// of walls).
    pub proof fn lemma_player_off_boundary(self, m: Moniker)
        requires
            self.wf(),
            self.players().contains_key(m),
        ensures
            !on_boundary(self.players()[m].coord),
    {
        if on_boundary(self.players()[m].coord) {
            self.lemma_boundary_is_wall(self.players()[m].coord);
        }
    }

    /// Record that the effective wall state at `c` is `v`. Only called for
    /// interior cells, and never to raise a wall under a player or pickup.
    fn set_wall_value(&mut self, c: Coord2D, v: bool)
        requires
            old(self).wf(),
            c.in_bounds(),
            !on_boundary(c),
            v ==> (!old(self).some_player_at(c) && !old(self).blob_at(c)),
        ensures
            final(self).wf(),
            final(self).wall_at(c) == v,
            forall|c2: Coord2D| c2 != c ==> final(self).wall_at(c2) == old(self).wall_at(c2),
            final(self).players() == old(self).players(),
            final(self).essence_spec().player_table() == old(self).essence_spec().player_table(),
            final(self).blobs() == old(self).blobs(),
            final(self).seed() == old(self).seed(),
            final(self).rng_state() == old(self).rng_state(),
            final(self).essence_spec().rng() == old(self).essence_spec().rng(),
            final(self).rows() == old(self).rows(),
    {
        if v != self.is_wall_at(c) {
            self.essence.override_table_mut().set(c, v);
            proof {
                assert forall|c2: Coord2D| c2 != c implies self.wall_at(c2) == old(self).wall_at(
                    c2,
                ) by {
                    assert(self.overrides() == old(self).overrides().insert(c, v));
                }
                assert forall|m: Moniker| #[trigger]
                    self.players().contains_key(m) implies !self.wall_at(self.players()[m].coord) by {
                    assert(old(self).players().contains_key(m));
                    if self.players()[m].coord == c {
                        assert(old(self).some_player_at(c));
                    }
                }
                assert forall|i: int| 0 <= i < self.blobs().len() implies !self.wall_at(
                    #[trigger] self.blobs()[i],
                ) by {
                    assert(!old(self).wall_at(old(self).blobs()[i]));
                    if self.blobs()[i] == c {
                        assert(old(self).blob_at(c));
                    }
                }
            }
        }
    }

    /// Push the wall at `w` one cell onward in `dir`. Succeeds exactly when
    /// the push stays on the grid, `w` really is a wall and the cell beyond
    /// is entirely free; then the wall leaves `w` and appears beyond it.
    fn try_move_wall(&mut self, w: Coord2D, dir: Direction) -> (r: bool)
        requires
            old(self).wf(),
            w.in_bounds(),
            on_boundary(w) ==> would_exit(w, dir),
        ensures
            final(self).wf(),
            r == (!would_exit(w, dir) && old(self).wall_at(w) && !old(self).occupied(
                w.shifted(dir),
            )),
            !r ==> final(self).same_world(*old(self)),
            r ==> {
                &&& !final(self).wall_at(w)
                &&& final(self).wall_at(w.shifted(dir))
                &&& forall|c2: Coord2D|
                    c2 != w && c2 != w.shifted(dir) ==> final(self).wall_at(c2) == old(
                        self,
                    ).wall_at(c2)
                &&& final(self).players() == old(self).players()
                &&& final(self).essence_spec().player_table() == old(
                    self,
                ).essence_spec().player_table()
                &&& final(self).blobs() == old(self).blobs()
                &&& final(self).seed() == old(self).seed()
                &&& final(self).rng_state() == old(self).rng_state()
                &&& final(self).essence_spec().rng() == old(self).essence_spec().rng()
                &&& final(self).rows() == old(self).rows()
            },
    {
        if coord_would_exit(w, dir) || !self.is_wall_at(w) {
            return false;
        }
        let beyond = w.move_with(dir);
        if self.is_something_at(beyond) {
            return false;
        }
        proof {
            // both touched cells are interior: `w` by the requires (a frame
            // wall can only be pushed off the grid), `beyond` because it is
            // not a wall while the frame always is
            if on_boundary(beyond) {
                self.lemma_boundary_is_wall(beyond);
            }
            assert(w != beyond);
        }
        self.set_wall_value(w, false);
        self.set_wall_value(beyond, true);
        true
    }

    /// Whether a move request must be refused outright: no such player, the
    /// move exits the grid, another player blocks the cell, or a wall blocks
    /// it and cannot be pushed (no charge, or the push exits the grid or is
    /// itself blocked).
    pub open spec fn move_rejected(self, moniker: Moniker, dir: Direction) -> bool {
        if !self.players().contains_key(moniker) {
            true
        } else {
            let src = self.players()[moniker].coord;
            let dest = src.shifted(dir);
            if would_exit(src, dir) {
                true
            } else if self.some_player_at(dest) {
                true
            } else if self.wall_at(dest) {
                self.players()[moniker].charge == 0 || would_exit(dest, dir) || self.occupied(
                    dest.shifted(dir),
                )
            } else {
                false
            }
        }
    }

    /// The mid-collection emptiness, read off the pre-state: the player
    /// already stands on `dest`, so its old cell is clear.
    pub open spec fn mid_empties(pre: GameState, moniker: Moniker, dest: Coord2D) -> spec_fn(
        Coord2D,
    ) -> bool {
        |c: Coord2D|
            !pre.wall_at(c) && !(pre.some_player_at(c) && c != pre.players()[moniker].coord) && c
                != dest
    }

    /// The mid-collection occupancy, read off the pre-state: the player
    /// already stands on `dest` and the collected pickup is gone.
    pub open spec fn mid_occupancy(pre: GameState, moniker: Moniker, dest: Coord2D) -> spec_fn(
        Coord2D,
    ) -> bool {
        |c: Coord2D|
            (pre.some_player_at(c) && c != pre.players()[moniker].coord) || c == dest
                || pre.wall_at(c) || (pre.blob_at(c) && c != dest)
    }

    /// The respawn search a pickup collection runs: the spot outcome over
    /// the mid-move occupancy, from the essence's generator state — a pure
    /// function of the pre-state, so the replacement cell replays from the
    /// essence.
    #[verifier::opaque]
    pub open spec fn respawn_outcome(pre: GameState, moniker: Moniker, dest: Coord2D) -> (
        Option<Coord2D>,
        u64,
    ) {
        spot_outcome(
            GameState::mid_empties(pre, moniker, dest),
            GameState::mid_occupancy(pre, moniker, dest),
            pre.rng_state(),
        )
    }

    /// What a successful move did to the world, by the three cases of the
    /// destination: a pushable wall, a pickup, or a plain free cell.
    pub open spec fn moved_effect(pre: GameState, post: GameState, moniker: Moniker, dir: Direction) -> bool {
        let src = pre.players()[moniker].coord;
        let dest = src.shifted(dir);
        let charge = pre.players()[moniker].charge;
        &&& pre.players().contains_key(moniker)
        &&& !would_exit(src, dir)
        &&& !pre.some_player_at(dest)
        &&& post.seed() == pre.seed()
        &&& post.rows() == pre.rows()
        &&& if pre.wall_at(dest) {
            let beyond = dest.shifted(dir);
            &&& charge > 0
            &&& !would_exit(dest, dir)
            &&& !pre.occupied(beyond)
            &&& post.players() == pre.players().insert(
                moniker,
                PlayerObject { coord: dest, charge: (charge - 1) as u16 },
            )
            &&& !post.wall_at(dest)
            &&& post.wall_at(beyond)
            &&& forall|c: Coord2D| c != dest && c != beyond ==> post.wall_at(c) == pre.wall_at(c)
            &&& post.blobs() == pre.blobs()
            &&& post.rng_state() == pre.rng_state()
        } else if pre.blob_at(dest) {
            let lifted = if charge < POWER_LIMIT {
                (charge + 1) as u16
            } else {
                charge
            };
            let out = GameState::respawn_outcome(pre, moniker, dest);
            &&& post.players() == pre.players().insert(
                moniker,
                PlayerObject { coord: dest, charge: lifted },
            )
            &&& post.overrides() == pre.overrides()
            &&& post.blobs().len() == pre.blobs().len()
            &&& out.0 is Some
            &&& post.rng_state() == out.1
            &&& ({
                let nc = out.0->Some_0;
                &&& nc.in_bounds()
                &&& nc != dest
                &&& !pre.blobs().contains(nc)
                &&& !post.wall_at(nc)
                &&& !post.some_player_at(nc)
                &&& post.blobs().to_set() == pre.blobs().to_set().remove(dest).insert(nc)
            })
        } else {
            &&& post.players() == pre.players().insert(
                moniker,
                PlayerObject { coord: dest, charge },
            )
            &&& post.overrides() == pre.overrides()
            &&& post.blobs() == pre.blobs()
            &&& post.rng_state() == pre.rng_state()
        }
    }

    /// The index of the pickup at `c`, if one is there.
    fn blob_index_of(&self, c: Coord2D) -> (r: Option<usize>)
        ensures
            r is Some <==> self.blobs().contains(c),
            r is Some ==> (r->Some_0 < self.blobs().len() && self.blobs()[r->Some_0 as int] == c),
    {
        let blobs = self.essence.blob_coords();
        let n = blobs.len();
        let mut i: usize = 0;
        while i < n
            invariant
                n == self.blobs().len(),
                blobs@ == self.blobs(),
                i <= n,
                forall|a: int| 0 <= a < i ==> #[trigger] self.blobs()[a] != c,
            decreases n - i,
        {
            if blobs[i] == c {
                return Some(i);
            }
            i = i + 1;
        }
        None
    }

    /// Removing one entry of a duplicate-free sequence removes exactly that
    /// value from its set.
    proof fn lemma_nodup_remove_to_set(s: Seq<Coord2D>, i: int)
        requires
            s.no_duplicates(),
            0 <= i < s.len(),
        ensures
            s.remove(i).no_duplicates(),
            s.remove(i).to_set() == s.to_set().remove(s[i]),
            forall|c: Coord2D| s.remove(i).contains(c) <==> (s.contains(c) && c != s[i]),
    {
        assert forall|c: Coord2D| s.remove(i).contains(c) <==> (s.contains(c) && c != s[i]) by {
            if s.remove(i).contains(c) {
                let a = choose|a: int| 0 <= a < s.remove(i).len() && s.remove(i)[a] == c;
                let a0 = if a < i {
                    a
                } else {
                    a + 1
                };
                assert(s[a0] == c);
            }
            if s.contains(c) && c != s[i] {
                let a = choose|a: int| 0 <= a < s.len() && s[a] == c;
                let a1 = if a < i {
                    a
                } else {
                    a - 1
                };
                assert(s.remove(i)[a1] == c);
            }
        }
        assert(s.remove(i).to_set() =~= s.to_set().remove(s[i]));
        assert forall|a: int, b: int|
            0 <= a < s.remove(i).len() && 0 <= b < s.remove(i).len() && a != b implies s.remove(i)[a]
            != s.remove(i)[b] by {
            let a0 = if a < i {
                a
            } else {
                a + 1
            };
            let b0 = if b < i {
                b
            } else {
                b + 1
            };
            assert(s.remove(i)[a] == s[a0]);
            assert(s.remove(i)[b] == s[b0]);
        }
    }

    /// After moving one player onto a cell free of players, walls and
    /// pickups (with a legal charge), the world is well formed again.
    proof fn lemma_after_simple_move(self, pre: GameState, moniker: Moniker, dest: Coord2D, charge: u16)
        requires
            pre.wf(),
            pre.players().contains_key(moniker),
            dest.in_bounds(),
            charge <= POWER_LIMIT,
            !pre.some_player_at(dest),
            !pre.wall_at(dest),
            !pre.blob_at(dest),
            self.players() == pre.players().insert(moniker, PlayerObject { coord: dest, charge }),
            self.essence_spec().player_table().wf(),
            self.essence_spec().override_table() == pre.essence_spec().override_table(),
            self.blobs() == pre.blobs(),
            self.seed() == pre.seed(),
            self.rows() == pre.rows(),
            self.essence_spec().rng() == pre.essence_spec().rng(),
        ensures
            self.wf(),
    {
        assert forall|c: Coord2D| self.wall_at(c) == pre.wall_at(c) by {}
        assert forall|m: Moniker| #[trigger]
            self.players().contains_key(m) implies (self.players()[m].coord.in_bounds()
            && self.players()[m].charge <= POWER_LIMIT && !self.blobs().contains(
            self.players()[m].coord,
        ) && !self.wall_at(self.players()[m].coord)) by {
            if m != moniker {
                assert(pre.players().contains_key(m));
            }
        }
        assert forall|m1: Moniker, m2: Moniker|
            self.players().contains_key(m1) && self.players().contains_key(m2) && m1
                != m2 implies self.players()[m1].coord != self.players()[m2].coord by {
            if m1 != moniker && m2 != moniker {
                assert(pre.players().contains_key(m1));
                assert(pre.players().contains_key(m2));
            } else if m1 == moniker {
                assert(pre.players().contains_key(m2));
                assert(!pre.some_player_at(dest));
            } else {
                assert(pre.players().contains_key(m1));
                assert(!pre.some_player_at(dest));
            }
        }
        assert forall|i: int| 0 <= i < self.blobs().len() implies !self.wall_at(
            #[trigger] self.blobs()[i],
        ) by {
            assert(!pre.wall_at(pre.blobs()[i]));
        }
    }

    /// After lifting the pickup at `dest` and stepping the player onto it,
    /// the world is well formed again.
    proof fn lemma_after_collect(self, pre: GameState, moniker: Moniker, dest: Coord2D, bi: int)
        requires
            pre.wf(),
            pre.players().contains_key(moniker),
            dest.in_bounds(),
            0 <= bi < pre.blobs().len(),
            pre.blobs()[bi] == dest,
            !pre.some_player_at(dest),
            !pre.wall_at(dest),
            self.players() == pre.players().insert(
                moniker,
                PlayerObject { coord: dest, charge: pre.players()[moniker].charge },
            ),
            self.essence_spec().player_table().wf(),
            self.blobs() == pre.blobs().remove(bi),
            self.essence_spec().override_table() == pre.essence_spec().override_table(),
            self.seed() == pre.seed(),
            self.rows() == pre.rows(),
            self.essence_spec().rng() == pre.essence_spec().rng(),
        ensures
            self.wf(),
            !self.blob_at(dest),
            self.blobs().to_set() == pre.blobs().to_set().remove(dest),
    {
        GameState::lemma_nodup_remove_to_set(pre.blobs(), bi);
        assert forall|c: Coord2D| self.wall_at(c) == pre.wall_at(c) by {}
        assert forall|m: Moniker| #[trigger]
            self.players().contains_key(m) implies (self.players()[m].coord.in_bounds()
            && self.players()[m].charge <= POWER_LIMIT && !self.blobs().contains(
            self.players()[m].coord,
        ) && !self.wall_at(self.players()[m].coord)) by {
            if m != moniker {
                assert(pre.players().contains_key(m));
                assert(!pre.blobs().contains(pre.players()[m].coord));
            } else {
                assert(pre.players().contains_key(moniker));
                assert(!self.blobs().contains(dest));
            }
        }
        assert forall|m1: Moniker, m2: Moniker|
            self.players().contains_key(m1) && self.players().contains_key(m2) && m1
                != m2 implies self.players()[m1].coord != self.players()[m2].coord by {
            if m1 != moniker && m2 != moniker {
                assert(pre.players().contains_key(m1));
                assert(pre.players().contains_key(m2));
            } else if m1 == moniker {
                assert(pre.players().contains_key(m2));
                assert(!pre.some_player_at(dest));
            } else {
                assert(pre.players().contains_key(m1));
                assert(!pre.some_player_at(dest));
            }
        }
        assert forall|i: int| 0 <= i < self.blobs().len() implies (#[trigger] self.blobs()[i]).in_bounds()
            && !self.wall_at(self.blobs()[i]) by {
            assert(pre.blobs().contains(self.blobs()[i]));
            let a = choose|a: int| 0 <= a < pre.blobs().len() && pre.blobs()[a] == self.blobs()[i];
            assert(!pre.wall_at(pre.blobs()[a]));
        }
    }

    /// After pushing the replacement pickup and lifting the player's charge,
    /// the world is well formed and the whole move effect holds.
    proof fn lemma_after_respawn(
        self,
        old0: GameState,
        mid: GameState,
        nc: Coord2D,
        moniker: Moniker,
        dir: Direction,
        dest: Coord2D,
        bi: int,
        lifted: u16,
    )
        requires
            old0.wf(),
            mid.wf(),
            old0.players().contains_key(moniker),
            !would_exit(old0.players()[moniker].coord, dir),
            dest == old0.players()[moniker].coord.shifted(dir),
            dest.in_bounds(),
            !old0.some_player_at(dest),
            !old0.wall_at(dest),
            0 <= bi < old0.blobs().len(),
            old0.blobs()[bi] == dest,
            mid.players() == old0.players().insert(
                moniker,
                PlayerObject { coord: dest, charge: old0.players()[moniker].charge },
            ),
            mid.blobs() == old0.blobs().remove(bi),
            mid.essence_spec().override_table() == old0.essence_spec().override_table(),
            mid.seed() == old0.seed(),
            mid.rows() == old0.rows(),
            nc.in_bounds(),
            !mid.occupied(nc),
            lifted == (if old0.players()[moniker].charge < POWER_LIMIT {
                (old0.players()[moniker].charge + 1) as u16
            } else {
                old0.players()[moniker].charge
            }),
            self.players() == mid.players().insert(moniker, PlayerObject { coord: dest, charge: lifted }),
            self.essence_spec().player_table().wf(),
            self.essence_spec().override_table().wf(),
            self.blobs() == mid.blobs().push(nc),
            self.overrides() == mid.overrides(),
            self.seed() == mid.seed(),
            self.rows() == mid.rows(),
            self.essence_spec().rng().wf(),
            GameState::respawn_outcome(old0, moniker, dest) == (Some(nc), self.rng_state()),
        ensures
            self.wf(),
            GameState::moved_effect(old0, self, moniker, dir),
            self.players().dom() == old0.players().dom(),
    {
        GameState::lemma_nodup_remove_to_set(old0.blobs(), bi);
        let charge = old0.players()[moniker].charge;
        assert(lifted <= POWER_LIMIT);
        assert(nc != dest) by {
            assert(mid.players().contains_key(moniker) && mid.players()[moniker].coord == dest);
            assert(!mid.some_player_at(nc));
        }
        assert forall|c: Coord2D| self.wall_at(c) == mid.wall_at(c) && mid.wall_at(c) == old0.wall_at(
            c,
        ) by {}
        // the registry after both updates collapses to one update of the old
        assert(self.players() =~= old0.players().insert(
            moniker,
            PlayerObject { coord: dest, charge: lifted },
        ));
        assert(self.players().dom() =~= old0.players().dom());
        // well-formedness
        assert forall|m: Moniker| #[trigger]
            self.players().contains_key(m) implies (self.players()[m].coord.in_bounds()
            && self.players()[m].charge <= POWER_LIMIT && !self.blobs().contains(
            self.players()[m].coord,
        ) && !self.wall_at(self.players()[m].coord)) by {
            if m != moniker {
                assert(old0.players().contains_key(m));
                assert(mid.players().contains_key(m));
                assert(!old0.blobs().contains(old0.players()[m].coord));
                assert(mid.players()[m] == old0.players()[m]);
                assert(!mid.some_player_at(nc));
                assert(old0.players()[m].coord != nc);
            } else {
                assert(!mid.blob_at(dest));
                assert(nc != dest);
            }
        }
        assert forall|m1: Moniker, m2: Moniker|
            self.players().contains_key(m1) && self.players().contains_key(m2) && m1
                != m2 implies self.players()[m1].coord != self.players()[m2].coord by {
            if m1 != moniker && m2 != moniker {
                assert(old0.players().contains_key(m1));
                assert(old0.players().contains_key(m2));
            } else if m1 == moniker {
                assert(old0.players().contains_key(m2));
                assert(!old0.some_player_at(dest));
            } else {
                assert(old0.players().contains_key(m1));
                assert(!old0.some_player_at(dest));
            }
        }
        assert(self.blobs().no_duplicates()) by {
            assert(!mid.blob_at(nc));
            assert forall|a: int, b: int|
                0 <= a < self.blobs().len() && 0 <= b < self.blobs().len() && a
                    != b implies self.blobs()[a] != self.blobs()[b] by {
                if a < mid.blobs().len() && b < mid.blobs().len() {
                } else if a < mid.blobs().len() {
                    assert(mid.blobs().contains(mid.blobs()[a]));
                } else if b < mid.blobs().len() {
                    assert(mid.blobs().contains(mid.blobs()[b]));
                }
            }
        }
        assert forall|i: int| 0 <= i < self.blobs().len() implies (#[trigger] self.blobs()[i]).in_bounds()
            && !self.wall_at(self.blobs()[i]) by {
            if i < mid.blobs().len() {
                assert(mid.blobs()[i].in_bounds());
                assert(!mid.wall_at(mid.blobs()[i]));
            } else {
                assert(self.blobs()[i] == nc);
                assert(!mid.wall_at(nc));
            }
        }
        // the effect: the collected cell left the pickup set, `nc` entered
        assert(self.blobs().to_set() =~= old0.blobs().to_set().remove(dest).insert(nc)) by {
            assert forall|c: Coord2D| self.blobs().contains(c) <==> (mid.blobs().contains(c) || c
                == nc) by {
                if self.blobs().contains(c) {
                    let a = choose|a: int| 0 <= a < self.blobs().len() && self.blobs()[a] == c;
                    if a < mid.blobs().len() {
                        assert(mid.blobs()[a] == c);
                    }
                }
                if mid.blobs().contains(c) {
                    let a = choose|a: int| 0 <= a < mid.blobs().len() && mid.blobs()[a] == c;
                    assert(self.blobs()[a] == c);
                }
                assert(self.blobs()[self.blobs().len() - 1] == nc);
            }
        }
        assert(!old0.blobs().contains(nc)) by {
            assert(!mid.blob_at(nc));
            assert(nc != dest);
        }
        assert(!self.some_player_at(nc)) by {
            assert forall|m: Moniker| #[trigger]
                self.players().contains_key(m) implies self.players()[m].coord != nc by {
                assert(mid.players().contains_key(m));
                assert(!mid.some_player_at(nc));
                if m == moniker {
                } else {
                    assert(self.players()[m] == mid.players()[m]);
                }
            }
        }
        assert(self.blobs().len() == old0.blobs().len());
    }

    /// A world equal to a well-formed one in every observable view is well
    /// formed.
    proof fn lemma_wf_like(self, pre: GameState)
        requires
            pre.wf(),
            self.players() == pre.players(),
            self.blobs() == pre.blobs(),
            self.overrides() == pre.overrides(),
            self.seed() == pre.seed(),
            self.rows() == pre.rows(),
            self.essence_spec().rng().wf(),
            self.essence_spec().player_table().wf(),
            self.essence_spec().override_table().wf(),
        ensures
            self.wf(),
    {
        assert forall|c: Coord2D| self.wall_at(c) == pre.wall_at(c) by {}
        assert forall|m: Moniker| #[trigger]
            self.players().contains_key(m) implies !self.wall_at(self.players()[m].coord) by {
            assert(pre.players().contains_key(m));
        }
        assert forall|i: int| 0 <= i < self.blobs().len() implies !self.wall_at(
            #[trigger] self.blobs()[i],
        ) by {
            assert(!pre.wall_at(pre.blobs()[i]));
        }
    }

    /// The state between collecting a pickup and respawning it reads, cell
    /// by cell, as [`GameState::mid_empties`] and [`GameState::mid_occupancy`]
    /// of the pre-state.
    proof fn lemma_mid_collect_predicates(
        mid: GameState,
        pre: GameState,
        moniker: Moniker,
        dest: Coord2D,
        bi: int,
    )
        requires
            pre.wf(),
            pre.players().contains_key(moniker),
            !pre.some_player_at(dest),
            0 <= bi < pre.blobs().len(),
            pre.blobs()[bi] == dest,
            mid.players() == pre.players().insert(
                moniker,
                PlayerObject { coord: dest, charge: pre.players()[moniker].charge },
            ),
            mid.blobs() == pre.blobs().remove(bi),
            mid.overrides() == pre.overrides(),
            mid.seed() == pre.seed(),
        ensures
            forall|c: Coord2D|
                #![trigger GameState::mid_empties(pre, moniker, dest)(c)]
                mid.empties()(c) == GameState::mid_empties(pre, moniker, dest)(c),
            forall|c: Coord2D|
                #![trigger GameState::mid_occupancy(pre, moniker, dest)(c)]
                mid.occupancy()(c) == GameState::mid_occupancy(pre, moniker, dest)(c),
    {
        let src = pre.players()[moniker].coord;
        GameState::lemma_nodup_remove_to_set(pre.blobs(), bi);
        assert forall|c: Coord2D|
            #[trigger] mid.some_player_at(c) == ((pre.some_player_at(c) && c != src) || c
                == dest) by {
            if mid.some_player_at(c) {
                let m2 = choose|m2: Moniker|
                    #[trigger] mid.players().contains_key(m2) && mid.players()[m2].coord == c;
                if m2 == moniker {
                    assert(c == dest);
                } else {
                    assert(pre.players().contains_key(m2));
                    assert(pre.some_player_at(c));
                    if c == src {
                        assert(pre.players()[moniker].coord == src);
                        assert(false);
                    }
                }
            }
            if c == dest {
                assert(mid.players().contains_key(moniker) && mid.players()[moniker].coord
                    == dest);
            }
            if pre.some_player_at(c) && c != src {
                let m2 = choose|m2: Moniker|
                    #[trigger] pre.players().contains_key(m2) && pre.players()[m2].coord == c;
                assert(m2 != moniker);
                assert(mid.players().contains_key(m2) && mid.players()[m2].coord == c);
            }
        }
        assert forall|c: Coord2D| #[trigger] mid.blob_at(c) == (pre.blob_at(c) && c != dest) by {}
        assert forall|c: Coord2D| #[trigger] mid.wall_at(c) == pre.wall_at(c) by {}
    }

    /// The core state transition: move the player one cell, pushing a wall
    /// (for one charge) or collecting a pickup (for one charge, capped) on
    /// the way. Rejected moves and failed pickup respawns leave the world
    /// exactly as it was.
    #[verifier::rlimit(100)]
    pub fn move_moniker_in_dir(&mut self, moniker: Moniker, dir: Direction) -> (o: MoveOutcome)
        requires
            old(self).wf(),
        ensures
            final(self).wf(),
            final(self).players().dom() == old(self).players().dom(),
            (o == MoveOutcome::Rejected) <==> old(self).move_rejected(moniker, dir),
            o == MoveOutcome::Rejected ==> final(self).same_world(*old(self)),
            o == MoveOutcome::RespawnExhausted ==> final(self).same_world(*old(self)),
            o == MoveOutcome::RespawnExhausted ==> {
                let dest = old(self).players()[moniker].coord.shifted(dir);
                &&& old(self).players().contains_key(moniker)
                &&& !old(self).wall_at(dest)
                &&& old(self).blob_at(dest)
                &&& GameState::respawn_outcome(*old(self), moniker, dest).0 is None
            },
            o == MoveOutcome::Moved ==> GameState::moved_effect(*old(self), *final(self), moniker, dir),
    {
        let obj = match self.essence.player_table_ref().get(moniker) {
            Some(o) => o,
            None => {
                return MoveOutcome::Rejected;
            },
        };
        let src = obj.coord;
        proof {
            assert(self.players()[moniker].coord.in_bounds());
        }
        if coord_would_exit(src, dir) {
            return MoveOutcome::Rejected;
        }
        let dest = src.move_with(dir);
        if self.is_player_at(dest) {
            return MoveOutcome::Rejected;
        }
        if self.is_wall_at(dest) {
            if obj.charge == 0 {
                return MoveOutcome::Rejected;
            }
            proof {
                self.lemma_player_off_boundary(moniker);
                crate::grid::lemma_step_toward_frame(src, dir);
            }
            if self.try_move_wall(dest, dir) {
                let ghost wstate = *self;
                self.essence.player_table_mut().update(
                    moniker,
                    PlayerObject { coord: dest, charge: obj.charge - 1 },
                );
                proof {
                    self.lemma_after_simple_move(wstate, moniker, dest, (obj.charge - 1) as u16);
                    assert(self.players() =~= old(self).players().insert(
                        moniker,
                        PlayerObject { coord: dest, charge: (obj.charge - 1) as u16 },
                    ));
                    assert(self.players().dom() =~= old(self).players().dom());
                }
                MoveOutcome::Moved
            } else {
                MoveOutcome::Rejected
            }
        } else {
            if self.is_blob_at(dest) {
                let saved_rng = self.essence.rng_copy();
                let bi = match self.blob_index_of(dest) {
                    Some(i) => i,
                    None => {
                        proof {
                            assert(false);
                        }
                        return MoveOutcome::Rejected;
                    },
                };
                let ghost pre = *self;
                self.essence.blobs_mut().remove(bi);
                self.essence.player_table_mut().update(
                    moniker,
                    PlayerObject { coord: dest, charge: obj.charge },
                );
                proof {
                    GameState::lemma_nodup_remove_to_set(pre.blobs(), bi as int);
                    self.lemma_after_collect(pre, moniker, dest, bi as int);
                }
                let ghost mid = *self;
                proof {
                    // the respawn search reads the mid-collection occupancy,
                    // which is the pre-state's with the player on `dest` and
                    // the pickup gone
                    GameState::lemma_mid_collect_predicates(mid, pre, moniker, dest, bi as int);
                    lemma_spot_outcome_congruent(
                        mid.empties(),
                        mid.occupancy(),
                        GameState::mid_empties(pre, moniker, dest),
                        GameState::mid_occupancy(pre, moniker, dest),
                        mid.rng_state(),
                    );
                    assert(mid.rng_state() == old(self).rng_state());
                    reveal(GameState::respawn_outcome);
                    assert(spot_outcome(mid.empties(), mid.occupancy(), mid.rng_state())
                        == GameState::respawn_outcome(*old(self), moniker, dest));
                }
                match self.sync_random_free_spot() {
                    Some(nc) => {
                        self.essence.blobs_mut().push(nc);
                        let lifted = if obj.charge < POWER_LIMIT {
                            obj.charge + 1
                        } else {
                            obj.charge
                        };
                        self.essence.player_table_mut().update(
                            moniker,
                            PlayerObject { coord: dest, charge: lifted },
                        );
                        proof {
                            self.lemma_after_respawn(*old(self), mid, nc, moniker, dir, dest, bi as int, lifted);
                        }
                        MoveOutcome::Moved
                    },
                    None => {
                        // roll the collection back: the world is untouched
                        self.essence.blobs_mut().insert(bi, dest);
                        self.essence.player_table_mut().update(
                            moniker,
                            PlayerObject { coord: src, charge: obj.charge },
                        );
                        self.essence.set_rng(saved_rng);
                        proof {
                            assert(self.blobs() =~= pre.blobs());
                            assert(self.players() =~= pre.players());
                            assert(self.players().dom() =~= old(self).players().dom());
                            self.lemma_wf_like(pre);
                        }
                        MoveOutcome::RespawnExhausted
                    },
                }
            } else {
                self.essence.player_table_mut().update(
                    moniker,
                    PlayerObject { coord: dest, charge: obj.charge },
                );
                proof {
                    self.lemma_after_simple_move(*old(self), moniker, dest, obj.charge);
                    assert(self.players().dom() =~= old(self).players().dom());
                }
                MoveOutcome::Moved
            }
        }
    }

    /// Place a pickup on a free cell.
    fn add_blob(&mut self, c: Coord2D)
        requires
            old(self).wf(),
            c.in_bounds(),
            !old(self).occupied(c),
        ensures
            final(self).wf(),
            final(self).blobs() == old(self).blobs().push(c),
            final(self).players() == old(self).players(),
            final(self).overrides() == old(self).overrides(),
            final(self).seed() == old(self).seed(),
            final(self).rng_state() == old(self).rng_state(),
            final(self).rows() == old(self).rows(),
    {
        self.essence.blobs_mut().push(c);
        proof {
            assert forall|m: Moniker| #[trigger]
                self.players().contains_key(m) implies (self.players()[m].coord.in_bounds()
                && self.players()[m].charge <= POWER_LIMIT && !self.wall_at(self.players()[m].coord)
                && !self.blobs().contains(self.players()[m].coord)) by {
                assert(old(self).players().contains_key(m));
                assert(!old(self).blobs().contains(old(self).players()[m].coord));
                assert(!old(self).wall_at(old(self).players()[m].coord));
                if self.players()[m].coord == c {
                    assert(old(self).some_player_at(c));
                }
                assert forall|i: int|
                    0 <= i < self.blobs().len() && self.blobs()[i] == self.players()[m].coord implies false by {
                    if i < old(self).blobs().len() {
                        assert(old(self).blobs().contains(old(self).blobs()[i]));
                    }
                }
            }
            assert(self.blobs().no_duplicates()) by {
                assert(!old(self).blob_at(c));
                assert forall|a: int, b: int|
                    0 <= a < self.blobs().len() && 0 <= b < self.blobs().len() && a
                        != b implies self.blobs()[a] != self.blobs()[b] by {
                    if a < old(self).blobs().len() && b < old(self).blobs().len() {
                    } else if a < old(self).blobs().len() {
                        assert(old(self).blobs().contains(old(self).blobs()[a]));
                    } else if b < old(self).blobs().len() {
                        assert(old(self).blobs().contains(old(self).blobs()[b]));
                    }
                }
            }
            assert forall|i: int| 0 <= i < self.blobs().len() implies (#[trigger] self.blobs()[i]).in_bounds()
                && !self.wall_at(self.blobs()[i]) by {
                if i < old(self).blobs().len() {
                    assert(old(self).blobs()[i].in_bounds());
                    assert(!old(self).wall_at(old(self).blobs()[i]));
                }
            }
        }
    }

    /// A brand-new world: a random wall seed (never all zero), a random
    /// synchronized generator, no players, no overrides, and the full count
    /// of pickups on free cells. `None` only when a pickup found no spot.
    pub fn new_random() -> (r: Option<GameState>)
        ensures
            r is Some ==> {
                &&& r->Some_0.wf()
                &&& r->Some_0.players() == Map::<Moniker, PlayerObject>::empty()
                &&& r->Some_0.overrides() == Map::<Coord2D, bool>::empty()
                &&& r->Some_0.blobs().len() == NUM_POWER_BLOBS as int
            },
    {
        let mut s0 = crate::rng::random_u32();
        let s1 = crate::rng::random_u32();
        let s2 = crate::rng::random_u32();
        let s3 = crate::rng::random_u32();
        if s0 == 0 && s1 == 0 && s2 == 0 && s3 == 0 {
            // the wall generator refuses an all-zero seed
            s0 = 1;
        }
        let seed = WallSeed { s0, s1, s2, s3 };
        let essence = match GameStateEssence::from_parts(
            Vec::new(),
            seed,
            Vec::new(),
            Vec::new(),
            crate::rng::random_u64(),
        ) {
            Some(e) => e,
            None => {
                proof {
                    assert(false);
                }
                return None;
            },
        };
        let mut g = match GameState::from_essence(essence) {
            Some(g) => g,
            None => {
                proof {
                    assert(false);
                }
                return None;
            },
        };
        let mut placed: u8 = 0;
        while placed < NUM_POWER_BLOBS
            invariant
                g.wf(),
                placed <= NUM_POWER_BLOBS,
                g.blobs().len() == placed as int,
                g.players() == Map::<Moniker, PlayerObject>::empty(),
                g.overrides() == Map::<Coord2D, bool>::empty(),
            decreases NUM_POWER_BLOBS - placed,
        {
            match g.random_free_spot() {
                Some(c) => {
                    g.add_blob(c);
                },
                None => {
                    return None;
                },
            }
            placed = placed + 1;
        }
        Some(g)
    }

    /// The global exclusivity invariant: on a well-formed world no
    /// coordinate holds two of a player, a wall and a pickup — and no two
    /// players share a coordinate.
    pub proof fn lemma_cell_exclusive(self, c: Coord2D)
        requires
            self.wf(),
        ensures
            !(self.some_player_at(c) && self.wall_at(c)),
            !(self.some_player_at(c) && self.blob_at(c)),
            !(self.wall_at(c) && self.blob_at(c)),
            forall|m1: Moniker, m2: Moniker|
                #![trigger self.players().contains_key(m1), self.players().contains_key(m2)]
                self.players().contains_key(m1) && self.players().contains_key(m2)
                    && self.players()[m1].coord == c && self.players()[m2].coord == c ==> m1 == m2,
    {
        if self.some_player_at(c) {
            let m = choose|m: Moniker|
                #[trigger] self.players().contains_key(m) && self.players()[m].coord == c;
            assert(!self.wall_at(c));
            assert(!self.blobs().contains(c));
        }
        if self.blob_at(c) {
            let i = choose|i: int| 0 <= i < self.blobs().len() && self.blobs()[i] == c;
            assert(!self.wall_at(self.blobs()[i]));
        }
    }

    /// A registered player's charge never exceeds the limit (and, being
    /// unsigned, never goes below zero).
    pub proof fn lemma_charge_bounds(self, m: Moniker)
        requires
            self.wf(),
            self.players().contains_key(m),
        ensures
            self.players()[m].charge <= POWER_LIMIT,
    {
    }

    /// The default wall layer is a pure function of the stored seed: two
    /// worlds derived from the same seed carry the identical layer, and with
    /// equal overrides the identical effective walls.
    pub proof fn lemma_wall_layout_deterministic(a: GameState, b: GameState)
        requires
            a.wf(),
            b.wf(),
            a.seed() == b.seed(),
        ensures
            forall|x: int, y: int|
                0 <= x < WIDTH && 0 <= y < HEIGHT ==> (#[trigger] crate::walls::bitset_bits(
                    a.rows()[y],
                ).contains(x) == crate::walls::bitset_bits(b.rows()[y]).contains(x)),
            a.overrides() == b.overrides() ==> forall|c: Coord2D|
                #![trigger a.wall_at(c), b.wall_at(c)]
                a.wall_at(c) == b.wall_at(c),
    {
    }

    /// Remove the player registered under `moniker`, reporting whether one
    /// was there.
    pub fn try_remove_player(&mut self, moniker: Moniker) -> (r: bool)
        requires
            old(self).wf(),
        ensures
            final(self).wf(),
            r == old(self).players().contains_key(moniker),
            final(self).players() == old(self).players().remove(moniker),
            final(self).blobs() == old(self).blobs(),
            final(self).overrides() == old(self).overrides(),
            final(self).seed() == old(self).seed(),
            final(self).rng_state() == old(self).rng_state(),
            final(self).rows() == old(self).rows(),
    {
        let r = self.essence.player_table_mut().remove(moniker);
        proof {
            assert forall|m: Moniker| #[trigger]
                self.players().contains_key(m) implies (self.players()[m].coord.in_bounds()
                && self.players()[m].charge <= POWER_LIMIT && !self.blobs().contains(
                self.players()[m].coord,
            ) && !self.wall_at(self.players()[m].coord)) by {
                assert(old(self).players().contains_key(m));
            }
            assert forall|m1: Moniker, m2: Moniker|
                self.players().contains_key(m1) && self.players().contains_key(m2) && m1
                    != m2 implies self.players()[m1].coord != self.players()[m2].coord by {
                assert(old(self).players().contains_key(m1));
                assert(old(self).players().contains_key(m2));
            }
            assert forall|i: int| 0 <= i < self.blobs().len() implies !self.wall_at(
                #[trigger] self.blobs()[i],
            ) by {
                assert(self.blobs() == old(self).blobs());
                assert(!old(self).wall_at(old(self).blobs()[i]));
            }
        }
        r
    }
}

} // verus!
