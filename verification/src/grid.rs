//! The playing field: a fixed-size 2-D grid of cells, addressed by `Coord2D`,
//! together with the four movement directions.

use vstd::prelude::*;

verus! {

/// Width of the grid in cells.
pub const WIDTH: u16 = 30;

/// Height of the grid in cells.
pub const HEIGHT: u16 = 22;

/// Total number of cells on the grid.
pub const TOTAL_COORDS: usize = 660;

/// One cell of the grid. Valid coordinates satisfy
/// `x < WIDTH && y < HEIGHT` (see [`Coord2D::in_bounds`]).
#[derive(Copy, Clone, PartialEq, Eq, Structural, Hash, Debug)]
pub struct Coord2D {
    pub x: u16,
    pub y: u16,
}

/// A single step on the grid.
#[derive(Copy, Clone, PartialEq, Eq, Structural, Debug)]
pub enum Direction {
    Left,
    Right,
    Up,
    Down,
}

impl Coord2D {
    /// Whether this coordinate lies on the grid.
    pub open spec fn in_bounds(self) -> bool {
        self.x < WIDTH && self.y < HEIGHT
    }

    /// The row-major ordinal of this coordinate, scanning from `(0, 0)`.
    pub open spec fn index(self) -> int {
        self.y * WIDTH + self.x
    }

    pub fn new(x: u16, y: u16) -> (c: Self)
        ensures
            c.x == x,
            c.y == y,
    {
        Coord2D { x, y }
    }

    /// The neighbouring coordinate one step in `dir`, as a spec-level value.
    pub open spec fn shifted(self, dir: Direction) -> Coord2D {
        match dir {
            Direction::Up => Coord2D { x: self.x, y: (self.y - 1) as u16 },
            Direction::Down => Coord2D { x: self.x, y: (self.y + 1) as u16 },
            Direction::Left => Coord2D { x: (self.x - 1) as u16, y: self.y },
            Direction::Right => Coord2D { x: (self.x + 1) as u16, y: self.y },
        }
    }

    /// Step one cell in `dir`. The caller must already have checked that the
    /// move stays on the grid (see [`coord_would_exit`]).
    pub fn move_with(self, dir: Direction) -> (c: Coord2D)
        requires
            self.in_bounds(),
            !would_exit(self, dir),
        ensures
            c == self.shifted(dir),
            c.in_bounds(),
    {
        match dir {
            Direction::Up => Coord2D::new(self.x, self.y - 1),
            Direction::Down => Coord2D::new(self.x, self.y + 1),
            Direction::Left => Coord2D::new(self.x - 1, self.y),
            Direction::Right => Coord2D::new(self.x + 1, self.y),
        }
    }
}

/// Whether `coord` lies on the outer frame of the grid.
pub open spec fn on_boundary(coord: Coord2D) -> bool {
    coord.x == 0 || coord.y == 0 || coord.x == WIDTH - 1 || coord.y == HEIGHT - 1
}

/// Whether a step from `coord` in `dir` would leave the grid.
pub open spec fn would_exit(coord: Coord2D, dir: Direction) -> bool {
    match dir {
        Direction::Up => coord.y == 0,
        Direction::Down => coord.y == HEIGHT - 1,
        Direction::Left => coord.x == 0,
        Direction::Right => coord.x == WIDTH - 1,
    }
}

/// Executable check for [`on_boundary`].
pub fn coord_on_boundary(coord: Coord2D) -> (r: bool)
    ensures
        r == on_boundary(coord),
{
    coord.x == 0 || coord.y == 0 || coord.x == WIDTH - 1 || coord.y == HEIGHT - 1
}

/// Executable check for [`would_exit`].
pub fn coord_would_exit(coord: Coord2D, dir: Direction) -> (r: bool)
    ensures
        r == would_exit(coord, dir),
{
    match dir {
        Direction::Up => coord.y == 0,
        Direction::Down => coord.y == HEIGHT - 1,
        Direction::Left => coord.x == 0,
        Direction::Right => coord.x == WIDTH - 1,
    }
}

/// A step from an interior cell can reach the grid's frame only in the
/// direction of travel, where continuing would exit the grid.
pub proof fn lemma_step_toward_frame(src: Coord2D, dir: Direction)
    requires
        src.in_bounds(),
        !on_boundary(src),
        !would_exit(src, dir),
    ensures
        src.shifted(dir).in_bounds(),
        on_boundary(src.shifted(dir)) ==> would_exit(src.shifted(dir), dir),
{
}

/// Walks every coordinate of the grid in row-major order, `(0, 0)` first.
pub struct CoordIter {
    pub next: Coord2D,
}

impl CoordIter {
    /// The ordinal of the coordinate the next call will yield.
    pub open spec fn position(self) -> int {
        self.next.index()
    }

    pub fn new() -> (it: CoordIter)
        ensures
            it.position() == 0,
    {
        CoordIter { next: Coord2D::new(0, 0) }
    }

    /// Yield the next coordinate, or `None` once the grid is exhausted.
    pub fn next_coord(&mut self) -> (c: Option<Coord2D>)
        requires
            old(self).position() <= TOTAL_COORDS,
            old(self).next.x <= WIDTH,
            old(self).next.y <= HEIGHT,
        ensures
            old(self).position() < TOTAL_COORDS ==> {
                &&& c is Some
                &&& c->Some_0.in_bounds()
                &&& c->Some_0.index() == old(self).position()
                &&& final(self).position() == old(self).position() + 1
                &&& final(self).next.x <= WIDTH
                &&& final(self).next.y <= HEIGHT
            },
            old(self).position() >= TOTAL_COORDS ==> c is None,
    {
        if self.next.x >= WIDTH {
            self.next.x = 0;
            self.next.y = self.next.y + 1;
        }
        if self.next.y >= HEIGHT {
            return None;
        }
        let was = self.next;
        self.next = Coord2D::new(was.x + 1, was.y);
        Some(was)
    }
}

} // verus!
