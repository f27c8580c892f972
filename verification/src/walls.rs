//! The default wall layer. It is generated once from a stored seed — every
//! boundary cell is a wall, every interior cell is a wall with a fixed
//! one-in-three chance — and is therefore a pure function of the seed:
//! regenerating a world from its essence reproduces the identical layout.
//! The per-cell noise comes from the `rand` crate's `XorShiftRng`, and the
//! generated rows are held in `bitset::BitSet` rows; both stand behind
//! trusted declarations below.

use vstd::prelude::*;

use rand::{Rng, SeedableRng};

use crate::grid::{on_boundary, Coord2D, HEIGHT, WIDTH};

verus! {

/// The chance of an interior wall is one in `WALL_CHANCE_IN`.
pub const WALL_CHANCE_IN: u32 = 3;

/// The seed the default wall layer is generated from. It must not be all
/// zero (the underlying generator refuses such a seed).
#[derive(Copy, Clone, PartialEq, Eq, Structural, Debug)]
pub struct WallSeed {
    pub s0: u32,
    pub s1: u32,
    pub s2: u32,
    pub s3: u32,
}

impl WallSeed {
    pub open spec fn is_all_zero(self) -> bool {
        self.s0 == 0 && self.s1 == 0 && self.s2 == 0 && self.s3 == 0
    }

    pub fn all_zero(&self) -> (r: bool)
        ensures
            r == self.is_all_zero(),
    {
        self.s0 == 0 && self.s1 == 0 && self.s2 == 0 && self.s3 == 0
    }
}

/// The `k`-th one-in-`n` draw of a fresh `XorShiftRng` generator seeded with
/// `(s0, s1, s2, s3)`. The generator is deterministic, so this is a pure
/// function of the seed; no shorter statement of its value exists.
pub uninterp spec fn weighted_draw(s0: u32, s1: u32, s2: u32, s3: u32, k: int, n: u32) -> bool;

#[verifier::external_type_specification]
#[verifier::external_body]
pub struct ExXorShiftRng(rand::XorShiftRng);

/// Relies on `XorShiftRng::from_seed` of the `rand` crate, which builds a
/// generator deterministically from the seed and panics only on an all-zero
/// seed. Nothing is stated here: [`WallNoise`] ties the generator back to
/// its seed.
#[verifier::external_body]
fn xorshift_from_seed(s0: u32, s1: u32, s2: u32, s3: u32) -> rand::XorShiftRng
    requires
        !(s0 == 0 && s1 == 0 && s2 == 0 && s3 == 0),
{
    rand::XorShiftRng::from_seed([s0, s1, s2, s3])
}

/// A seeded noise source for the wall layer: an `XorShiftRng` built from
/// `seed` together with the count of draws already taken. The fields are
/// private and [`WallNoise::new`] is the only constructor, so the generator
/// inside always is the one `seed` determines, advanced by `drawn` draws;
/// the contract of [`WallNoise::next_weighted`] relies on exactly that.
pub struct WallNoise {
    rng: rand::XorShiftRng,
    seed: WallSeed,
    drawn: Ghost<int>,
}

impl WallNoise {
    pub closed spec fn seed(self) -> WallSeed {
        self.seed
    }

    pub closed spec fn drawn(self) -> int {
        self.drawn@
    }

    pub(crate) fn new(seed: WallSeed) -> (w: WallNoise)
        requires
            !seed.is_all_zero(),
        ensures
            w.seed() == seed,
            w.drawn() == 0,
    {
        WallNoise {
            rng: xorshift_from_seed(seed.s0, seed.s1, seed.s2, seed.s3),
            seed,
            drawn: Ghost(0),
        }
    }

    /// Relies on `Rng::gen_weighted_bool` of the `rand` crate: a one-in-`n`
    /// draw that is a pure function of the generator's state, which here is
    /// determined by the seed and the number of draws taken (see the type's
    /// documentation). The draw is named [`weighted_draw`]. Bounds of `n`
    /// below 2 are excluded: for them the underlying call answers without
    /// drawing, so the draw count would not advance.
    #[verifier::external_body]
    pub(crate) fn next_weighted(&mut self, n: u32) -> (r: bool)
        requires
            2 <= n,
        ensures
            final(self).seed() == old(self).seed(),
            final(self).drawn() == old(self).drawn() + 1,
            r == weighted_draw(
                old(self).seed().s0,
                old(self).seed().s1,
                old(self).seed().s2,
                old(self).seed().s3,
                old(self).drawn(),
                n,
            ),
    {
        self.rng.gen_weighted_bool(n)
    }
}

#[verifier::external_type_specification]
#[verifier::external_body]
pub struct ExBitSet(bitset::BitSet);

/// What a `bitset::BitSet` holds: the indices of its one bits.
pub uninterp spec fn bitset_bits(b: bitset::BitSet) -> Set<int>;

/// The bit count a `bitset::BitSet` was created with.
pub uninterp spec fn bitset_size(b: bitset::BitSet) -> int;

/// Relies on `BitSet::with_capacity` of the `bitset` crate: `n` bits, all
/// initialized to zero.
#[verifier::external_body]
pub(crate) fn bitset_with_capacity(n: usize) -> (b: bitset::BitSet)
    ensures
        bitset_size(b) == n,
        bitset_bits(b) == Set::<int>::empty(),
{
    bitset::BitSet::with_capacity(n)
}

/// Relies on `BitSet::set` of the `bitset` crate: writes the one bit at
/// `i` (a no-op outside the allocated range, hence the bound).
#[verifier::external_body]
pub(crate) fn bitset_set(b: &mut bitset::BitSet, i: usize, v: bool)
    requires
        i < bitset_size(*old(b)),
    ensures
        bitset_size(*final(b)) == bitset_size(*old(b)),
        bitset_bits(*final(b)) == (if v {
            bitset_bits(*old(b)).insert(i as int)
        } else {
            bitset_bits(*old(b)).remove(i as int)
        }),
{
    b.set(i, v)
}

/// Relies on `BitSet::test` of the `bitset` crate: reads the bit at `i`
/// (which panics outside the allocated range, hence the bound).
#[verifier::external_body]
pub(crate) fn bitset_test(b: &bitset::BitSet, i: usize) -> (r: bool)
    requires
        i < bitset_size(*b),
    ensures
        r == bitset_bits(*b).contains(i as int),
{
    b.test(i)
}

/// How many one-in-three draws the generator has taken when the row-major
/// scan reaches column `x` of row `y`: one per interior cell already passed.
pub open spec fn draws_before(x: int, y: int) -> int {
    let full_rows = if y <= 1 {
        0
    } else if y - 1 <= HEIGHT - 2 {
        y - 1
    } else {
        HEIGHT - 2
    };
    let in_row = if 1 <= y <= HEIGHT - 2 {
        if x <= 1 {
            0
        } else if x - 1 <= WIDTH - 2 {
            x - 1
        } else {
            WIDTH - 2
        }
    } else {
        0
    };
    full_rows * (WIDTH - 2) + in_row
}

/// Whether the default layer puts a wall at `c`: always on the boundary,
/// else by the seed's one-in-three draw for that interior cell.
pub open spec fn default_wall(seed: WallSeed, c: Coord2D) -> bool {
    on_boundary(c) || weighted_draw(seed.s0, seed.s1, seed.s2, seed.s3, draws_before(c.x as int, c.y as int), WALL_CHANCE_IN)
}

/// The rows are a faithful rendering of the default layer for `seed`.
pub open spec fn wall_rows_match(rows: Seq<bitset::BitSet>, seed: WallSeed) -> bool {
    &&& rows.len() == HEIGHT
    &&& forall|y: int| 0 <= y < HEIGHT ==> bitset_size(#[trigger] rows[y]) == WIDTH
    &&& forall|x: int, y: int|
        0 <= x < WIDTH && 0 <= y < HEIGHT ==> (#[trigger] bitset_bits(rows[y]).contains(x)
            == default_wall(seed, Coord2D { x: x as u16, y: y as u16 }))
}

/// Generate the default wall layer for `seed`, one row-major pass.
pub(crate) fn build_default_walls(seed: WallSeed) -> (rows: Vec<bitset::BitSet>)
    requires
        !seed.is_all_zero(),
    ensures
        wall_rows_match(rows@, seed),
{
    let mut noise = WallNoise::new(seed);
    let mut rows: Vec<bitset::BitSet> = Vec::new();
    let mut y: u16 = 0;
    while y < HEIGHT
        invariant
            y <= HEIGHT,
            rows@.len() == y,
            noise.seed() == seed,
            noise.drawn() == draws_before(0, y as int),
            forall|r: int| 0 <= r < y ==> bitset_size(#[trigger] rows@[r]) == WIDTH,
            forall|x: int, r: int|
                0 <= x < WIDTH && 0 <= r < y ==> (#[trigger] bitset_bits(rows@[r]).contains(x)
                    == default_wall(seed, Coord2D { x: x as u16, y: r as u16 })),
        decreases HEIGHT - y,
    {
        let mut row = bitset_with_capacity(WIDTH as usize);
        let mut x: u16 = 0;
        while x < WIDTH
            invariant
                x <= WIDTH,
                y < HEIGHT,
                bitset_size(row) == WIDTH,
                noise.seed() == seed,
                noise.drawn() == draws_before(x as int, y as int),
                forall|c: int|
                    0 <= c < x ==> (bitset_bits(row).contains(c) == default_wall(
                        seed,
                        Coord2D { x: c as u16, y },
                    )),
                forall|c: int| x <= c < WIDTH ==> !bitset_bits(row).contains(c),
            decreases WIDTH - x,
        {
            let here = Coord2D::new(x, y);
            if crate::grid::coord_on_boundary(here) {
                bitset_set(&mut row, x as usize, true);
            } else {
                let w = noise.next_weighted(WALL_CHANCE_IN);
                if w {
                    bitset_set(&mut row, x as usize, true);
                }
            }
            x = x + 1;
        }
        rows.push(row);
        y = y + 1;
    }
    rows
}

} // verus!
