//! Axial hex coordinates, neighbour enumeration and exact corner geometry.
//!
//! Geometry is expressed on an integer lattice that contains every hex centre and
//! every hex corner of a pointy-top grid: one lattice step along `x` is half the
//! horizontal distance between neighbouring centres (`size * sqrt(3) / 2`), one
//! step along `y` is half the cell size (`size / 2`). A centre `(q, r)` lies at
//! `(2q + r, 3r)`; its corners lie one or two steps away from it.
use vstd::prelude::*;

verus! {

/// An axial hex coordinate; the third cube coordinate is `s = -q - r`.
#[derive(Clone, Copy, Debug, PartialEq, Eq, Hash, Structural)]
pub struct Hex {
    pub q: i32,
    pub r: i32,
}

/// A point on the corner lattice (see the module documentation).
#[derive(Clone, Copy, Debug, PartialEq, Eq, Hash, Structural)]
pub struct Point {
    pub x: i64,
    pub y: i64,
}

/// The axial offset `(dq, dr)` of the neighbour in direction `i` (`0 <= i < 6`).
///
/// The directions go round the hex in the same order as the corners, so that
/// side `i`, from corner `i` to corner `(i + 1) % 6`, faces neighbour `i`.
pub open spec fn direction(i: int) -> (int, int) {
    if i == 0 {
        (1, 0)
    } else if i == 1 {
        (1, -1)
    } else if i == 2 {
        (0, -1)
    } else if i == 3 {
        (-1, 0)
    } else if i == 4 {
        (-1, 1)
    } else {
        (0, 1)
    }
}

/// The lattice offset of corner `i` (`0 <= i < 6`) from its hex's centre.
pub open spec fn corner_offset(i: int) -> (int, int) {
    if i == 0 {
        (1, 1)
    } else if i == 1 {
        (1, -1)
    } else if i == 2 {
        (0, -2)
    } else if i == 3 {
        (-1, -1)
    } else if i == 4 {
        (-1, 1)
    } else {
        (0, 2)
    }
}

/// The direction opposite to direction `i`.
pub open spec fn opposite(i: int) -> int {
    (i + 3) % 6
}

impl Hex {
    /// The derived cube coordinate.
    pub open spec fn s_spec(self) -> int {
        -self.q - self.r
    }

    /// Whether every neighbour of this hex is representable.
    pub open spec fn has_neighbors(self) -> bool {
        i32::MIN < self.q < i32::MAX && i32::MIN < self.r < i32::MAX
    }

    /// The neighbour in direction `i`, as integers.
    pub open spec fn neighbor_spec(self, i: int) -> (int, int) {
        (self.q + direction(i).0, self.r + direction(i).1)
    }

    /// The lattice position of this hex's centre.
    pub open spec fn center_spec(self) -> (int, int) {
        (2 * self.q + self.r, 3 * self.r)
    }

    /// The lattice position of corner `i`.
    pub open spec fn corner_spec(self, i: int) -> Point {
        Point {
            x: (self.center_spec().0 + corner_offset(i).0) as i64,
            y: (self.center_spec().1 + corner_offset(i).1) as i64,
        }
    }

    pub fn new(q: i32, r: i32) -> (h: Hex)
        ensures
            h.q == q,
            h.r == r,
    {
        Hex { q, r }
    }

    pub fn q(&self) -> (v: i32)
        ensures
            v == self.q,
    {
        self.q
    }

    pub fn r(&self) -> (v: i32)
        ensures
            v == self.r,
    {
        self.r
    }

    pub fn s(&self) -> (v: i64)
        ensures
            v == self.s_spec(),
    {
        -(self.q as i64) - (self.r as i64)
    }

    /// Axial vector sum.
    pub fn add(&self, other: Hex) -> (h: Hex)
        requires
            i32::MIN <= self.q + other.q <= i32::MAX,
            i32::MIN <= self.r + other.r <= i32::MAX,
        ensures
            h.q == self.q + other.q,
            h.r == self.r + other.r,
    {
        Hex { q: self.q + other.q, r: self.r + other.r }
    }

    /// Axial vector difference.
    pub fn sub(&self, other: Hex) -> (h: Hex)
        requires
            i32::MIN <= self.q - other.q <= i32::MAX,
            i32::MIN <= self.r - other.r <= i32::MAX,
        ensures
            h.q == self.q - other.q,
            h.r == self.r - other.r,
    {
        Hex { q: self.q - other.q, r: self.r - other.r }
    }

    /// The lattice position of this hex's centre.
    pub fn center(&self) -> (p: Point)
        ensures
            (p.x as int, p.y as int) == self.center_spec(),
    {
        Point { x: 2 * (self.q as i64) + (self.r as i64), y: 3 * (self.r as i64) }
    }

    /// The lattice position of corner `i`.
    pub fn corner(&self, i: usize) -> (p: Point)
        requires
            i < 6,
        ensures
            p.x == self.center_spec().0 + corner_offset(i as int).0,
            p.y == self.center_spec().1 + corner_offset(i as int).1,
            p == self.corner_spec(i as int),
    {
        let c = self.center();
        let (dx, dy): (i64, i64) = if i == 0 {
            (1, 1)
        } else if i == 1 {
            (1, -1)
        } else if i == 2 {
            (0, -2)
        } else if i == 3 {
            (-1, -1)
        } else if i == 4 {
            (-1, 1)
        } else {
            (0, 2)
        };
        Point { x: c.x + dx, y: c.y + dy }
    }
}

/// Whether `p` lies on the corner lattice's even sublattice, which holds every
/// hex corner: `x + y` is even.
pub open spec fn on_lattice(p: Point) -> bool {
    (p.x + p.y) % 2 == 0
}

/// Every corner lies on the even sublattice, and the six corners of a hex are
/// distinct.
pub proof fn lemma_corners(h: Hex, i: int, j: int)
    requires
        0 <= i < 6,
        0 <= j < 6,
    ensures
        on_lattice(h.corner_spec(i)),
        h.corner_spec(i).x == h.center_spec().0 + corner_offset(i).0,
        h.corner_spec(i).y == h.center_spec().1 + corner_offset(i).1,
        i != j ==> h.corner_spec(i) != h.corner_spec(j),
{
}

/// A tile's grid address. Two positions are equal when `q` and `r` are.
#[derive(Clone, Copy, Debug, PartialEq, Eq, Hash, Structural)]
pub struct TilePos(pub Hex);

impl TilePos {
    /// The neighbour in direction `i`.
    pub open spec fn neighbor(self, i: int) -> TilePos {
        TilePos(Hex { q: self.0.neighbor_spec(i).0 as i32, r: self.0.neighbor_spec(i).1 as i32 })
    }

    pub fn zero() -> (p: TilePos)
        ensures
            p.0.q == 0 && p.0.r == 0,
    {
        TilePos(Hex { q: 0, r: 0 })
    }

    /// The six adjacent positions; entry `i` lies in direction `i`.
    pub fn get_neighbors(&self) -> (n: [TilePos; 6])
        requires
            self.0.has_neighbors(),
        ensures
            forall|i: int|
                0 <= i < 6 ==> (#[trigger] n@[i]).0.q == self.0.neighbor_spec(i).0 && n@[i].0.r
                    == self.0.neighbor_spec(i).1,
            forall|i: int| 0 <= i < 6 ==> #[trigger] n@[i] == self.neighbor(i),
            n@.len() == 6,
    {
        let h = self.0;
        let n = [
            TilePos(Hex { q: h.q + 1, r: h.r }),
            TilePos(Hex { q: h.q + 1, r: h.r - 1 }),
            TilePos(Hex { q: h.q, r: h.r - 1 }),
            TilePos(Hex { q: h.q - 1, r: h.r }),
            TilePos(Hex { q: h.q - 1, r: h.r + 1 }),
            TilePos(Hex { q: h.q, r: h.r + 1 }),
        ];
        n
    }
}


/// Stepping to neighbour `i` and then in the opposite direction returns home.
pub proof fn lemma_neighbor_back(a: TilePos, i: int)
    requires
        a.0.has_neighbors(),
        0 <= i < 6,
    ensures
        a.neighbor(i).neighbor(opposite(i)) == a,
        a.neighbor(i).0.q == a.0.q + direction(i).0,
        a.neighbor(i).0.r == a.0.r + direction(i).1,
{
}

} // verus!
