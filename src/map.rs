//! Cube coordinates on a hexagonal grid, with distances, disks and rings.
use vstd::prelude::*;

use crate::entities::{Damageable, Marlin, Shark};

verus! {

/// No coordinate component that takes part in arithmetic may exceed this in
/// absolute value; it keeps every sum of three differences inside `i32`.
pub const COORD_LIMIT: i32 = 300_000_000;

/// The world is the disk of this radius around the harbor.
pub const WORLD_RADIUS: i32 = 100_000_000;

/// A cell of the hexagonal grid in cube coordinates.
#[derive(Debug, Clone, Copy, PartialEq, Eq, Hash, Structural)]
pub struct HexCoord {
    pub q: i32,
    pub r: i32,
    pub s: i32,
}

pub open spec fn abs(x: int) -> int {
    if x < 0 { -x } else { x }
}

/// Hex distance: half the Manhattan distance in cube space.
pub open spec fn hex_dist(a: HexCoord, b: HexCoord) -> int {
    (abs(a.q - b.q) + abs(a.r - b.r) + abs(a.s - b.s)) / 2
}

pub open spec fn origin() -> HexCoord {
    HexCoord { q: 0, r: 0, s: 0 }
}

impl HexCoord {
    /// Cube coordinates sum to zero.
    pub open spec fn wf(self) -> bool {
        self.q + self.r + self.s == 0
    }

    /// Every component lies in `-limit ..= limit`.
    pub open spec fn within(self, limit: int) -> bool {
        -limit <= self.q <= limit && -limit <= self.r <= limit && -limit <= self.s <= limit
    }

    /// A well-formed coordinate inside the world.
    pub open spec fn in_world(self) -> bool {
        self.wf() && self.within(WORLD_RADIUS as int)
    }

    pub fn new(q: i32, r: i32, s: i32) -> (c: HexCoord)
        requires
            q + r + s == 0,
        ensures
            c == (HexCoord { q, r, s }),
    {
        HexCoord { q, r, s }
    }

    /// The harbor, the origin of the grid.
    pub fn zero() -> (c: HexCoord)
        ensures
            c == origin(),
    {
        HexCoord { q: 0, r: 0, s: 0 }
    }

    pub fn distance(&self, other: &HexCoord) -> (d: i32)
        requires
            self.within(COORD_LIMIT as int),
            other.within(COORD_LIMIT as int),
        ensures
            d == hex_dist(*self, *other),
    {
        let dq: i32 = if self.q >= other.q { self.q - other.q } else { other.q - self.q };
        let dr: i32 = if self.r >= other.r { self.r - other.r } else { other.r - self.r };
        let ds: i32 = if self.s >= other.s { self.s - other.s } else { other.s - self.s };
        (dq + dr + ds) / 2
    }

    /// The cell reached from this one by a displacement.
    pub fn add(self, d: HexDir) -> (c: HexCoord)
        requires
            fits_i32(self.q + d.q),
            fits_i32(self.r + d.r),
            fits_i32(self.s + d.s),
        ensures
            c.q == self.q + d.q,
            c.r == self.r + d.r,
            c.s == self.s + d.s,
            self.wf() && d.wf() ==> c.wf(),
    {
        HexCoord { q: self.q + d.q, r: self.r + d.r, s: self.s + d.s }
    }

    /// The cell from which a displacement leads here.
    pub fn sub_dir(self, d: HexDir) -> (c: HexCoord)
        requires
            fits_i32(self.q - d.q),
            fits_i32(self.r - d.r),
            fits_i32(self.s - d.s),
        ensures
            c.q == self.q - d.q,
            c.r == self.r - d.r,
            c.s == self.s - d.s,
            self.wf() && d.wf() ==> c.wf(),
    {
        HexCoord { q: self.q - d.q, r: self.r - d.r, s: self.s - d.s }
    }

    /// The displacement from `other` to this cell.
    pub fn sub(self, other: HexCoord) -> (d: HexDir)
        requires
            fits_i32(self.q - other.q),
            fits_i32(self.r - other.r),
            fits_i32(self.s - other.s),
        ensures
            d.q == self.q - other.q,
            d.r == self.r - other.r,
            d.s == self.s - other.s,
            self.wf() && other.wf() ==> d.wf(),
    {
        HexDir { q: self.q - other.q, r: self.r - other.r, s: self.s - other.s }
    }

    /// Every coordinate at distance at most `radius`, row by row.
    pub fn within_radius(&self, radius: i32) -> (coords: Vec<HexCoord>)
        requires
            self.in_world(),
            0 <= radius <= WORLD_RADIUS,
        ensures
            forall|i: int|
                0 <= i < coords.len() ==> (#[trigger] coords[i]).wf() && hex_dist(*self, coords[i])
                    <= radius,
            forall|c: HexCoord| c.wf() && hex_dist(*self, c) <= radius ==> #[trigger] coords@.contains(c),
            coords.len() == 3 * radius * radius + 3 * radius + 1,
    {
        let mut coords: Vec<HexCoord> = Vec::new();
        let mut dq: i32 = -radius;
        proof {
            let k = dq + radius;
            assert(2 * k * radius + k * (k + 1) == 0) by (nonlinear_arith)
                requires
                    k == 0,
            ;
        }
        while dq <= radius
            invariant
                self.in_world(),
                0 <= radius <= WORLD_RADIUS,
                -radius <= dq <= radius + 1,
                2 * coords.len() == disk_prefix2(radius as int, dq as int),
                forall|i: int|
                    0 <= i < coords.len() ==> (#[trigger] coords[i]).wf() && hex_dist(*self, coords[i])
                        <= radius,
                forall|c: HexCoord|
                    c.wf() && hex_dist(*self, c) <= radius && c.q - self.q < dq
                        ==> #[trigger] coords@.contains(c),
            decreases radius + 1 - dq,
        {
            let lo: i32 = (if dq < 0 { -dq } else { 0 }) - radius;
            let hi: i32 = (if dq > 0 { -dq } else { 0 }) + radius;
            let mut dr: i32 = lo;
            let ghost start = coords.len();
            proof {
                lemma_disk_step(radius as int, dq as int);
            }
            while dr <= hi
                invariant
                    self.in_world(),
                    0 <= radius <= WORLD_RADIUS,
                    -radius <= dq <= radius,
                    lo == (if dq < 0 { -dq } else { 0 }) - radius,
                    hi == (if dq > 0 { -dq } else { 0 }) + radius,
                    lo <= dr <= hi + 1,
                    coords.len() == start + (dr - lo),
                    forall|i: int|
                        0 <= i < coords.len() ==> (#[trigger] coords[i]).wf() && hex_dist(
                            *self,
                            coords[i],
                        ) <= radius,
                    forall|c: HexCoord|
                        c.wf() && hex_dist(*self, c) <= radius && (c.q - self.q < dq || (c.q - self.q
                            == dq && c.r - self.r < dr)) ==> #[trigger] coords@.contains(c),
                decreases hi + 1 - dr,
            {
                let ds: i32 = -dq - dr;
                let c = HexCoord { q: self.q + dq, r: self.r + dr, s: self.s + ds };
                proof {
                    lemma_push_keeps(coords@, c);
                }
                coords.push(c);
                dr = dr + 1;
            }
            dq = dq + 1;
        }
        proof {
            lemma_disk_total(radius as int);
        }
        coords
    }

    /// Every coordinate at distance exactly `radius`: whole rows at the two
    /// extreme values of `dq`, and the two end cells of every row between.
    pub fn on_radius(&self, radius: i32) -> (coords: Vec<HexCoord>)
        requires
            self.in_world(),
            0 <= radius <= WORLD_RADIUS,
        ensures
            forall|i: int|
                0 <= i < coords.len() ==> (#[trigger] coords[i]).wf() && hex_dist(*self, coords[i])
                    == radius,
            forall|c: HexCoord| c.wf() && hex_dist(*self, c) == radius ==> #[trigger] coords@.contains(c),
            coords.len() == if radius == 0 { 1 } else { 6 * radius },
    {
        let mut coords: Vec<HexCoord> = Vec::new();
        let mut dq: i32 = -radius;
        while dq <= radius
            invariant
                self.in_world(),
                0 <= radius <= WORLD_RADIUS,
                -radius <= dq <= radius + 1,
                coords.len() == ring_prefix(radius as int, dq as int),
                forall|i: int|
                    0 <= i < coords.len() ==> (#[trigger] coords[i]).wf() && hex_dist(*self, coords[i])
                        == radius,
                forall|c: HexCoord|
                    c.wf() && hex_dist(*self, c) == radius && c.q - self.q < dq
                        ==> #[trigger] coords@.contains(c),
            decreases radius + 1 - dq,
        {
            let lo: i32 = (if dq < 0 { -dq } else { 0 }) - radius;
            let hi: i32 = (if dq > 0 { -dq } else { 0 }) + radius;
            if dq == radius || dq == -radius {
                let mut dr: i32 = lo;
                let ghost start = coords.len();
                while dr <= hi
                    invariant
                        self.in_world(),
                        0 <= radius <= WORLD_RADIUS,
                        dq == radius || dq == -radius,
                        lo == (if dq < 0 { -dq } else { 0 }) - radius,
                        hi == (if dq > 0 { -dq } else { 0 }) + radius,
                        lo <= dr <= hi + 1,
                        coords.len() == start + (dr - lo),
                        forall|i: int|
                            0 <= i < coords.len() ==> (#[trigger] coords[i]).wf() && hex_dist(
                                *self,
                                coords[i],
                            ) == radius,
                        forall|c: HexCoord|
                            c.wf() && hex_dist(*self, c) == radius && (c.q - self.q < dq || (c.q
                                - self.q == dq && c.r - self.r < dr))
                                ==> #[trigger] coords@.contains(c),
                    decreases hi + 1 - dr,
                {
                    let ds: i32 = -dq - dr;
                    let c = HexCoord { q: self.q + dq, r: self.r + dr, s: self.s + ds };
                    proof {
                        lemma_push_keeps(coords@, c);
                    }
                    coords.push(c);
                    dr = dr + 1;
                }
            } else {
                let c1 = HexCoord { q: self.q + dq, r: self.r + lo, s: self.s - dq - lo };
                let c2 = HexCoord { q: self.q + dq, r: self.r + hi, s: self.s - dq - hi };
                proof {
                    lemma_push_keeps(coords@, c1);
                    lemma_push_keeps(coords@.push(c1), c2);
                }
                coords.push(c1);
                coords.push(c2);
            }
            dq = dq + 1;
        }
        coords
    }
}

/// Twice the number of disk cells in the rows `-radius ..= dq - 1`; each row
/// `dq` of the disk holds `2 * radius + 1 - |dq|` cells.
pub open spec fn disk_prefix2(radius: int, dq: int) -> int {
    let k = dq + radius;
    if dq <= 1 {
        2 * k * radius + k * (k + 1)
    } else {
        let m = dq - 1;
        2 * (radius + 1) * radius + (radius + 1) * (radius + 2) + 2 * m * (2 * radius + 1) - m * (m
            + 1)
    }
}

/// Number of ring cells in the rows `-radius ..= dq - 1`.
pub open spec fn ring_prefix(radius: int, dq: int) -> int {
    let k = dq + radius;
    if k <= 0 {
        0
    } else if radius == 0 {
        1
    } else if dq <= radius {
        radius + 1 + 2 * (k - 1)
    } else {
        6 * radius
    }
}

proof fn lemma_disk_step(radius: int, dq: int)
    requires
        0 <= radius,
        -radius <= dq <= radius,
    ensures
        disk_prefix2(radius, dq + 1) == disk_prefix2(radius, dq) + 2 * (2 * radius + 1 - abs(dq)),
{
    let k = dq + radius;
    if dq <= 0 {
        assert(2 * (k + 1) * radius + (k + 1) * (k + 2) == 2 * k * radius + k * (k + 1) + 2 * radius
            + 2 * k + 2) by (nonlinear_arith);
    } else if dq == 1 {
        assert(2 * k * radius + k * (k + 1) == 2 * (radius + 1) * radius + (radius + 1) * (radius
            + 2)) by (nonlinear_arith)
            requires
                k == radius + 1,
        ;
        assert(2 * 1 * (2 * radius + 1) - 1 * (1 + 1) == 4 * radius);
    } else {
        let m = dq - 1;
        assert(2 * (m + 1) * (2 * radius + 1) - (m + 1) * (m + 2) == 2 * m * (2 * radius + 1) - m * (m
            + 1) + 2 * (2 * radius + 1) - 2 * (m + 1)) by (nonlinear_arith);
    }
}

proof fn lemma_disk_total(radius: int)
    requires
        0 <= radius,
    ensures
        disk_prefix2(radius, radius + 1) == 2 * (3 * radius * radius + 3 * radius + 1),
{
    if radius == 0 {
        assert(disk_prefix2(0, 1) == 2 * 1 * 0 + 1 * (1 + 1));
    } else {
        let m = radius;
        assert(disk_prefix2(radius, radius + 1) == 2 * (radius + 1) * radius + (radius + 1) * (radius
            + 2) + 2 * m * (2 * radius + 1) - m * (m + 1));
        assert(2 * (radius + 1) * radius + (radius + 1) * (radius + 2) + 2 * m * (2 * radius + 1) - m
            * (m + 1) == 2 * (3 * radius * radius + 3 * radius + 1)) by (nonlinear_arith)
            requires
                m == radius,
        ;
    }
}

/// Pushing keeps what the sequence held, and adds the new element.
pub proof fn lemma_push_keeps<T>(s: Seq<T>, x: T)
    ensures
        forall|c: T| s.contains(c) ==> #[trigger] s.push(x).contains(c),
        s.push(x).contains(x),
{
    assert forall|c: T| s.contains(c) implies #[trigger] s.push(x).contains(c) by {
        let i = choose|i: int| 0 <= i < s.len() && s[i] == c;
        assert(s.push(x)[i] == c);
    }
    assert(s.push(x)[s.len() as int] == x);

}

/// A displacement between two cells; the unit displacements are the six
/// neighbours of a cell, and zero stands for staying in place.
#[derive(Debug, Clone, Copy, PartialEq, Eq, Hash, Structural)]
pub struct HexDir {
    pub q: i32,
    pub r: i32,
    pub s: i32,
}

pub open spec fn fits_i32(x: int) -> bool {
    i32::MIN <= x <= i32::MAX
}

impl HexDir {
    pub open spec fn wf(self) -> bool {
        self.q + self.r + self.s == 0
    }

    pub fn new(q: i32, r: i32, s: i32) -> (d: HexDir)
        requires
            q + r + s == 0,
        ensures
            d == (HexDir { q, r, s }),
    {
        HexDir { q, r, s }
    }

    /// Builds a displacement without asking that its components sum to zero.
    pub fn new_unchecked(q: i32, r: i32, s: i32) -> (d: HexDir)
        ensures
            d == (HexDir { q, r, s }),
    {
        HexDir { q, r, s }
    }

    pub fn zero() -> (d: HexDir)
        ensures
            d == (HexDir { q: 0, r: 0, s: 0 }),
    {
        HexDir { q: 0, r: 0, s: 0 }
    }

    pub fn north() -> (d: HexDir)
        ensures
            d == (HexDir { q: 0, r: 1, s: -1i32 }),
    {
        HexDir { q: 0, r: 1, s: -1 }
    }

    pub fn northeast() -> (d: HexDir)
        ensures
            d == (HexDir { q: 1, r: 0, s: -1i32 }),
    {
        HexDir { q: 1, r: 0, s: -1 }
    }

    pub fn southeast() -> (d: HexDir)
        ensures
            d == (HexDir { q: 1, r: -1i32, s: 0 }),
    {
        HexDir { q: 1, r: -1, s: 0 }
    }

    pub fn south() -> (d: HexDir)
        ensures
            d == (HexDir { q: 0, r: -1i32, s: 1 }),
    {
        HexDir { q: 0, r: -1, s: 1 }
    }

    pub fn southwest() -> (d: HexDir)
        ensures
            d == (HexDir { q: -1i32, r: 0, s: 1 }),
    {
        HexDir { q: -1, r: 0, s: 1 }
    }

    pub fn northwest() -> (d: HexDir)
        ensures
            d == (HexDir { q: -1i32, r: 1, s: 0 }),
    {
        HexDir { q: -1, r: 1, s: 0 }
    }

    /// Component-wise sum of two displacements.
    pub fn add(self, other: HexDir) -> (d: HexDir)
        requires
            fits_i32(self.q + other.q),
            fits_i32(self.r + other.r),
            fits_i32(self.s + other.s),
        ensures
            d.q == self.q + other.q,
            d.r == self.r + other.r,
            d.s == self.s + other.s,
            self.wf() && other.wf() ==> d.wf(),
    {
        HexDir { q: self.q + other.q, r: self.r + other.r, s: self.s + other.s }
    }

    /// Component-wise difference of two displacements.
    pub fn sub(self, other: HexDir) -> (d: HexDir)
        requires
            fits_i32(self.q - other.q),
            fits_i32(self.r - other.r),
            fits_i32(self.s - other.s),
        ensures
            d.q == self.q - other.q,
            d.r == self.r - other.r,
            d.s == self.s - other.s,
            self.wf() && other.wf() ==> d.wf(),
    {
        HexDir { q: self.q - other.q, r: self.r - other.r, s: self.s - other.s }
    }

    /// Scales every component by `scalar`.
    pub fn mul(self, scalar: i32) -> (d: HexDir)
        requires
            fits_i32(self.q * scalar),
            fits_i32(self.r * scalar),
            fits_i32(self.s * scalar),
        ensures
            d.q == self.q * scalar,
            d.r == self.r * scalar,
            d.s == self.s * scalar,
            self.wf() ==> d.wf(),
    {
        proof {
            if self.wf() {
                assert(self.q * scalar + self.r * scalar + self.s * scalar == (self.q + self.r
                    + self.s) * scalar) by (nonlinear_arith);
            }
        }
        HexDir { q: self.q * scalar, r: self.r * scalar, s: self.s * scalar }
    }
}

/// The creatures that share one cell, in no particular order.
#[derive(Debug, Clone)]
pub struct HexCell {
    pub marlins: Vec<Marlin>,
    pub sharks: Vec<Shark>,
}

impl HexCell {
    pub fn new() -> (cell: HexCell)
        ensures
            cell.marlins@.len() == 0,
            cell.sharks@.len() == 0,
    {
        HexCell { marlins: Vec::new(), sharks: Vec::new() }
    }

    pub open spec fn is_empty_spec(&self) -> bool {
        self.marlins@.len() == 0 && self.sharks@.len() == 0
    }

    pub fn is_empty(&self) -> (r: bool)
        ensures
            r == self.is_empty_spec(),
    {
        self.marlins.len() == 0 && self.sharks.len() == 0
    }

    /// A copy with the same creatures in the same order.
    pub fn duplicate(&self) -> (c: HexCell)
        ensures
            c.marlins@ == self.marlins@,
            c.sharks@ == self.sharks@,
    {
        let mut marlins: Vec<Marlin> = Vec::new();
        let mut j: usize = 0;
        while j < self.marlins.len()
            invariant
                0 <= j <= self.marlins@.len(),
                marlins@ == self.marlins@.take(j as int),
            decreases self.marlins@.len() - j,
        {
            marlins.push(self.marlins[j]);
            j = j + 1;
            assert(marlins@ =~= self.marlins@.take(j as int));
        }
        let mut sharks: Vec<Shark> = Vec::new();
        let mut j: usize = 0;
        while j < self.sharks.len()
            invariant
                0 <= j <= self.sharks@.len(),
                sharks@ == self.sharks@.take(j as int),
            decreases self.sharks@.len() - j,
        {
            sharks.push(self.sharks[j]);
            j = j + 1;
            assert(sharks@ =~= self.sharks@.take(j as int));
        }
        assert(marlins@ =~= self.marlins@);
        assert(sharks@ =~= self.sharks@);
        HexCell { marlins, sharks }
    }

    /// No creature of the cell is dead.
    pub open spec fn all_alive(&self) -> bool {
        &&& forall|j: int| 0 <= j < self.marlins@.len() ==> (#[trigger] self.marlins@[j]).hp_spec() > 0
        &&& forall|j: int| 0 <= j < self.sharks@.len() ==> (#[trigger] self.sharks@[j]).hp_spec() > 0
    }
}

/// The sparse sea: cells keyed by coordinate, each coordinate at most once,
/// in an explicit order. A coordinate that is absent holds no creature.
#[derive(Debug, Clone)]
pub struct Grid {
    pub cells: Vec<(HexCoord, HexCell)>,
}

impl Grid {
    /// Keys are distinct and lie in the world.
    pub open spec fn wf(&self) -> bool {
        &&& forall|i: int, j: int|
            0 <= i < j < self.cells@.len() ==> (#[trigger] self.cells@[i]).0 != (#[trigger] self.cells@[j]).0
        &&& forall|i: int| 0 <= i < self.cells@.len() ==> (#[trigger] self.cells@[i]).0.in_world()
    }

    pub open spec fn holds(&self, c: HexCoord) -> bool {
        exists|i: int| 0 <= i < self.cells@.len() && (#[trigger] self.cells@[i]).0 == c
    }

    /// No cell holds a dead creature.
    pub open spec fn all_alive(&self) -> bool {
        forall|i: int| 0 <= i < self.cells@.len() ==> (#[trigger] self.cells@[i]).1.all_alive()
    }

    /// Every kept cell is occupied or lies within `radius` of `center`.
    pub open spec fn no_stale(&self, center: HexCoord, radius: int) -> bool {
        forall|i: int|
            0 <= i < self.cells@.len() ==> !(#[trigger] self.cells@[i]).1.is_empty_spec() || hex_dist(
                self.cells@[i].0,
                center,
            ) <= radius
    }

    /// The same keys in the same order, with the same creatures in each cell.
    pub open spec fn same_as(&self, other: Grid) -> bool {
        &&& self.cells@.len() == other.cells@.len()
        &&& forall|i: int|
            0 <= i < self.cells@.len() ==> {
                let (c, cell) = #[trigger] self.cells@[i];
                &&& c == other.cells@[i].0
                &&& cell.marlins@ == other.cells@[i].1.marlins@
                &&& cell.sharks@ == other.cells@[i].1.sharks@
            }
    }

    /// A copy of the grid, cell by cell.
    pub fn duplicate(&self) -> (g: Grid)
        ensures
            g.same_as(*self),
    {
        let mut cells: Vec<(HexCoord, HexCell)> = Vec::new();
        let mut i: usize = 0;
        while i < self.cells.len()
            invariant
                0 <= i <= self.cells@.len(),
                cells@.len() == i,
                forall|k: int|
                    0 <= k < i ==> {
                        let (c, cell) = #[trigger] cells@[k];
                        &&& c == self.cells@[k].0
                        &&& cell.marlins@ == self.cells@[k].1.marlins@
                        &&& cell.sharks@ == self.cells@[k].1.sharks@
                    },
            decreases self.cells@.len() - i,
        {
            let cell = self.cells[i].1.duplicate();
            cells.push((self.cells[i].0, cell));
            i = i + 1;
        }
        Grid { cells }
    }

    /// The sharks of the cell at `c`; none where the grid keeps no cell.
    pub open spec fn sharks_at(&self, c: HexCoord) -> Seq<Shark> {
        if self.holds(c) {
            self.cells@[choose|i: int| 0 <= i < self.cells@.len() && (#[trigger] self.cells@[i]).0 == c].1.sharks@
        } else {
            Seq::empty()
        }
    }

    /// The marlins of the cell at `c`; none where the grid keeps no cell.
    pub open spec fn marlins_at(&self, c: HexCoord) -> Seq<Marlin> {
        if self.holds(c) {
            self.cells@[choose|i: int| 0 <= i < self.cells@.len() && (#[trigger] self.cells@[i]).0 == c].1.marlins@
        } else {
            Seq::empty()
        }
    }

    /// The cell found at `i` is the one that `sharks_at` and `marlins_at` read.
    pub proof fn lemma_found(&self, c: HexCoord, i: int)
        requires
            self.wf(),
            0 <= i < self.cells@.len(),
            self.cells@[i].0 == c,
        ensures
            self.sharks_at(c) == self.cells@[i].1.sharks@,
            self.marlins_at(c) == self.cells@[i].1.marlins@,
    {
        let k = choose|k: int| 0 <= k < self.cells@.len() && (#[trigger] self.cells@[k]).0 == c;
        assert(self.cells@[i].0 == c);
        if k != i {
            if k < i {
                assert(self.cells@[k].0 != self.cells@[i].0);
            } else {
                assert(self.cells@[i].0 != self.cells@[k].0);
            }
        }
    }

    pub fn new() -> (g: Grid)
        ensures
            g.cells@.len() == 0,
    {
        Grid { cells: Vec::new() }
    }

    /// The position of `c` among the cells, if it is there.
    pub fn find(&self, c: &HexCoord) -> (r: Option<usize>)
        ensures
            match r {
                Some(i) => i < self.cells@.len() && self.cells@[i as int].0 == *c,
                None => !self.holds(*c),
            },
    {
        let mut i: usize = 0;
        while i < self.cells.len()
            invariant
                0 <= i <= self.cells@.len(),
                forall|k: int| 0 <= k < i ==> (#[trigger] self.cells@[k]).0 != *c,
            decreases self.cells@.len() - i,
        {
            if self.cells[i].0 == *c {
                return Some(i);
            }
            i = i + 1;
        }
        None
    }

    /// The cell at `c`, if the grid keeps one.
    pub fn get(&self, c: &HexCoord) -> (r: Option<&HexCell>)
        ensures
            match r {
                Some(cell) => exists|i: int|
                    0 <= i < self.cells@.len() && self.cells@[i].0 == *c && self.cells@[i].1 == *cell,
                None => !self.holds(*c),
            },
    {
        match self.find(c) {
            Some(i) => Some(&self.cells[i].1),
            None => None,
        }
    }

    /// Puts a marlin into the cell at `c`, creating the cell if needed.
    pub fn add_marlin(&mut self, c: HexCoord, m: Marlin)
        requires
            old(self).wf(),
            c.in_world(),
        ensures
            final(self).wf(),
            final(self).holds(c),
            Self::extends(*old(self), *final(self), c),
            old(self).all_alive() && m.hp_spec() > 0 ==> final(self).all_alive(),
            marlin_total(final(self).cells@) == marlin_total(old(self).cells@) + 1,
            shark_total(final(self).cells@) == shark_total(old(self).cells@),
            forall|center: HexCoord, radius: int|
                old(self).no_stale(center, radius) ==> #[trigger] final(self).no_stale(center, radius),
            forall|i: int|
                0 <= i < final(self).cells@.len() ==> (#[trigger] final(self).cells@[i]).1.marlins@ == (
                if i < old(self).cells@.len() {
                    old(self).cells@[i].1.marlins@
                } else {
                    Seq::<Marlin>::empty()
                }) + (if final(self).cells@[i].0 == c {
                    seq![m]
                } else {
                    Seq::<Marlin>::empty()
                }),
            forall|i: int|
                0 <= i < final(self).cells@.len() ==> (#[trigger] final(self).cells@[i]).1.sharks@ == (
                if i < old(self).cells@.len() {
                    old(self).cells@[i].1.sharks@
                } else {
                    Seq::<Shark>::empty()
                }),
    {
        match self.find(&c) {
            Some(i) => {
                let ghost before = self.cells@;
                self.cells[i].1.marlins.push(m);
                proof {
                    assert(self.cells@ =~= before.update(i as int, self.cells@[i as int]));
                    lemma_total_update(before, i as int, self.cells@[i as int], |cell: HexCell| cell.marlins@.len() as int);
                    lemma_total_update(before, i as int, self.cells@[i as int], |cell: HexCell| cell.sharks@.len() as int);
                }
            },
            None => {
                let mut cell = HexCell::new();
                cell.marlins.push(m);
                let ghost before = self.cells@;
                self.cells.push((c, cell));
                proof {
                    lemma_total_push(before, (c, cell), |cell: HexCell| cell.marlins@.len() as int);
                    lemma_total_push(before, (c, cell), |cell: HexCell| cell.sharks@.len() as int);
                }
            },
        }
        proof {
            if old(self).holds(c) {
                let k = choose|k: int| 0 <= k < old(self).cells@.len() && (#[trigger] old(self).cells@[k]).0 == c;
                assert(final(self).cells@[k].0 == c);
            } else {
                assert(final(self).cells@[old(self).cells@.len() as int].0 == c);
            }
            assert forall|i: int| 0 <= i < final(self).cells@.len() implies (#[trigger] final(self).cells@[i]).1.marlins@ == (if i < old(self).cells@.len() {
                old(self).cells@[i].1.marlins@
            } else {
                Seq::<Marlin>::empty()
            }) + (if final(self).cells@[i].0 == c {
                seq![m]
            } else {
                Seq::<Marlin>::empty()
            }) by {
                if i < old(self).cells@.len() && final(self).cells@[i].0 != c {
                    assert(old(self).cells@[i].1.marlins@ + Seq::<Marlin>::empty() =~= old(self).cells@[i].1.marlins@);
                }
                if i >= old(self).cells@.len() {
                    assert(Seq::<Marlin>::empty() + seq![m] =~= seq![m]);
                }
            }
            if old(self).all_alive() && m.hp_spec() > 0 {
                assert forall|i: int| 0 <= i < final(self).cells@.len() implies (#[trigger] final(
                    self).cells@[i]).1.all_alive() by {
                    if i < old(self).cells@.len() {
                        assert(old(self).cells@[i].1.all_alive());
                    }
                }
            }
            assert forall|center: HexCoord, radius: int|
                old(self).no_stale(center, radius) implies #[trigger] final(self).no_stale(center, radius) by {
                assert forall|i: int| 0 <= i < final(self).cells@.len() implies !(#[trigger] final(
                    self).cells@[i]).1.is_empty_spec() || hex_dist(final(self).cells@[i].0, center) <= radius by {
                    if i < old(self).cells@.len() {
                        assert(!old(self).cells@[i].1.is_empty_spec() || hex_dist(old(self).cells@[i].0, center) <= radius);
                    }
                }
            }
        }
    }

    /// Puts a shark into the cell at `c`, creating the cell if needed.
    pub fn add_shark(&mut self, c: HexCoord, s: Shark)
        requires
            old(self).wf(),
            c.in_world(),
        ensures
            final(self).wf(),
            final(self).holds(c),
            Self::extends(*old(self), *final(self), c),
            old(self).all_alive() && s.hp_spec() > 0 ==> final(self).all_alive(),
            shark_total(final(self).cells@) == shark_total(old(self).cells@) + 1,
            marlin_total(final(self).cells@) == marlin_total(old(self).cells@),
            forall|center: HexCoord, radius: int|
                old(self).no_stale(center, radius) ==> #[trigger] final(self).no_stale(center, radius),
            forall|i: int|
                0 <= i < final(self).cells@.len() ==> (#[trigger] final(self).cells@[i]).1.sharks@ == (
                if i < old(self).cells@.len() {
                    old(self).cells@[i].1.sharks@
                } else {
                    Seq::<Shark>::empty()
                }) + (if final(self).cells@[i].0 == c {
                    seq![s]
                } else {
                    Seq::<Shark>::empty()
                }),
            forall|i: int|
                0 <= i < final(self).cells@.len() ==> (#[trigger] final(self).cells@[i]).1.marlins@ == (
                if i < old(self).cells@.len() {
                    old(self).cells@[i].1.marlins@
                } else {
                    Seq::<Marlin>::empty()
                }),
    {
        match self.find(&c) {
            Some(i) => {
                let ghost before = self.cells@;
                self.cells[i].1.sharks.push(s);
                proof {
                    assert(self.cells@ =~= before.update(i as int, self.cells@[i as int]));
                    lemma_total_update(before, i as int, self.cells@[i as int], |cell: HexCell| cell.marlins@.len() as int);
                    lemma_total_update(before, i as int, self.cells@[i as int], |cell: HexCell| cell.sharks@.len() as int);
                }
            },
            None => {
                let mut cell = HexCell::new();
                cell.sharks.push(s);
                let ghost before = self.cells@;
                self.cells.push((c, cell));
                proof {
                    lemma_total_push(before, (c, cell), |cell: HexCell| cell.marlins@.len() as int);
                    lemma_total_push(before, (c, cell), |cell: HexCell| cell.sharks@.len() as int);
                }
            },
        }
        proof {
            if old(self).holds(c) {
                let k = choose|k: int| 0 <= k < old(self).cells@.len() && (#[trigger] old(self).cells@[k]).0 == c;
                assert(final(self).cells@[k].0 == c);
            } else {
                assert(final(self).cells@[old(self).cells@.len() as int].0 == c);
            }
            assert forall|i: int| 0 <= i < final(self).cells@.len() implies (#[trigger] final(self).cells@[i]).1.sharks@ == (if i < old(self).cells@.len() {
                old(self).cells@[i].1.sharks@
            } else {
                Seq::<Shark>::empty()
            }) + (if final(self).cells@[i].0 == c {
                seq![s]
            } else {
                Seq::<Shark>::empty()
            }) by {
                if i < old(self).cells@.len() && final(self).cells@[i].0 != c {
                    assert(old(self).cells@[i].1.sharks@ + Seq::<Shark>::empty() =~= old(self).cells@[i].1.sharks@);
                }
                if i >= old(self).cells@.len() {
                    assert(Seq::<Shark>::empty() + seq![s] =~= seq![s]);
                }
            }
            if old(self).all_alive() && s.hp_spec() > 0 {
                assert forall|i: int| 0 <= i < final(self).cells@.len() implies (#[trigger] final(
                    self).cells@[i]).1.all_alive() by {
                    if i < old(self).cells@.len() {
                        assert(old(self).cells@[i].1.all_alive());
                    }
                }
            }
            assert forall|center: HexCoord, radius: int|
                old(self).no_stale(center, radius) implies #[trigger] final(self).no_stale(center, radius) by {
                assert forall|i: int| 0 <= i < final(self).cells@.len() implies !(#[trigger] final(
                    self).cells@[i]).1.is_empty_spec() || hex_dist(final(self).cells@[i].0, center) <= radius by {
                    if i < old(self).cells@.len() {
                        assert(!old(self).cells@[i].1.is_empty_spec() || hex_dist(old(self).cells@[i].0, center) <= radius);
                    }
                }
            }
        }
    }

    /// `after` keeps the keys of `before` in place and adds at most the key `c`
    /// at the end.
    pub open spec fn extends(before: Grid, after: Grid, c: HexCoord) -> bool {
        &&& forall|i: int|
            0 <= i < before.cells@.len() ==> (#[trigger] after.cells@[i]).0 == before.cells@[i].0
        &&& if before.holds(c) {
            after.cells@.len() == before.cells@.len()
        } else {
            after.cells@.len() == before.cells@.len() + 1 && after.cells@[before.cells@.len() as int].0
                == c
        }
    }
}

/// Between well-formed coordinates, no component differs by more than the distance.
pub proof fn lemma_component_bound(a: HexCoord, b: HexCoord)
    requires
        a.wf(),
        b.wf(),
    ensures
        abs(a.q - b.q) <= hex_dist(a, b),
        abs(a.r - b.r) <= hex_dist(a, b),
        abs(a.s - b.s) <= hex_dist(a, b),
{
}

/// The sum of `f` over the cells.
pub open spec fn total(cells: Seq<(HexCoord, HexCell)>, f: spec_fn(HexCell) -> int) -> int
    decreases cells.len(),
{
    if cells.len() == 0 {
        0
    } else {
        total(cells.drop_last(), f) + f(cells.last().1)
    }
}

/// How many marlins the cells hold.
pub open spec fn marlin_total(cells: Seq<(HexCoord, HexCell)>) -> int {
    total(cells, |cell: HexCell| cell.marlins@.len() as int)
}

/// How many sharks the cells hold.
pub open spec fn shark_total(cells: Seq<(HexCoord, HexCell)>) -> int {
    total(cells, |cell: HexCell| cell.sharks@.len() as int)
}

/// Replacing one cell changes the sum by the difference it makes.
pub proof fn lemma_total_update(
    cells: Seq<(HexCoord, HexCell)>,
    i: int,
    e: (HexCoord, HexCell),
    f: spec_fn(HexCell) -> int,
)
    requires
        0 <= i < cells.len(),
    ensures
        total(cells.update(i, e), f) == total(cells, f) - f(cells[i].1) + f(e.1),
    decreases cells.len(),
{
    let u = cells.update(i, e);
    if i == cells.len() - 1 {
        assert(u.drop_last() =~= cells.drop_last());
    } else {
        lemma_total_update(cells.drop_last(), i, e, f);
        assert(u.drop_last() =~= cells.drop_last().update(i, e));
    }
}

/// Appending a cell adds its value to the sum.
pub proof fn lemma_total_push(cells: Seq<(HexCoord, HexCell)>, e: (HexCoord, HexCell), f: spec_fn(HexCell) -> int)
    ensures
        total(cells.push(e), f) == total(cells, f) + f(e.1),
{
    assert(cells.push(e).drop_last() =~= cells);
}

/// Cell by cell no larger gives a sum no larger.
pub proof fn lemma_total_le(
    a: Seq<(HexCoord, HexCell)>,
    b: Seq<(HexCoord, HexCell)>,
    f: spec_fn(HexCell) -> int,
)
    requires
        a.len() == b.len(),
        forall|i: int| 0 <= i < a.len() ==> f(#[trigger] a[i].1) <= f(b[i].1),
    ensures
        total(a, f) <= total(b, f),
    decreases a.len(),
{
    if a.len() > 0 {
        let (a1, b1) = (a.drop_last(), b.drop_last());
        assert forall|i: int| 0 <= i < a1.len() implies f(#[trigger] a1[i].1) <= f(b1[i].1) by {
            assert(a1[i] == a[i] && b1[i] == b[i]);
        }
        lemma_total_le(a1, b1, f);
        assert(f(a[a.len() - 1].1) <= f(b[b.len() - 1].1));
    }
}

/// A sum of non-negative values that is zero has every value zero.
pub proof fn lemma_total_zero(cells: Seq<(HexCoord, HexCell)>, f: spec_fn(HexCell) -> int)
    requires
        forall|c: HexCell| #[trigger] f(c) >= 0,
        total(cells, f) == 0,
    ensures
        forall|i: int| 0 <= i < cells.len() ==> f(#[trigger] cells[i].1) == 0,
    decreases cells.len(),
{
    if cells.len() > 0 {
        assert(total(cells.drop_last(), f) >= 0) by {
            lemma_total_nonneg(cells.drop_last(), f);
        }
        lemma_total_zero(cells.drop_last(), f);
        assert forall|i: int| 0 <= i < cells.len() implies f(#[trigger] cells[i].1) == 0 by {
            if i < cells.len() - 1 {
                assert(cells.drop_last()[i] == cells[i]);
            }
        }
    }
}

/// A sum of non-negative values is non-negative.
pub proof fn lemma_total_nonneg(cells: Seq<(HexCoord, HexCell)>, f: spec_fn(HexCell) -> int)
    requires
        forall|c: HexCell| #[trigger] f(c) >= 0,
    ensures
        total(cells, f) >= 0,
    decreases cells.len(),
{
    if cells.len() > 0 {
        lemma_total_nonneg(cells.drop_last(), f);
    }
}

/// Keeping some of the cells gives a sum no larger.
pub proof fn lemma_total_filter(
    cells: Seq<(HexCoord, HexCell)>,
    keep: spec_fn((HexCoord, HexCell)) -> bool,
    f: spec_fn(HexCell) -> int,
)
    requires
        forall|c: HexCell| #[trigger] f(c) >= 0,
    ensures
        total(cells.filter(keep), f) <= total(cells, f),
    decreases cells.len(),
{
    reveal(Seq::filter);
    if cells.len() > 0 {
        lemma_total_filter(cells.drop_last(), keep, f);
        let rest = cells.drop_last().filter(keep);
        if keep(cells.last()) {
            lemma_total_push(rest, cells.last(), f);
        }
    }
}

/// Distance is symmetric, and zero from a coordinate to itself.
pub proof fn lemma_distance_symmetric(a: HexCoord, b: HexCoord)
    ensures
        hex_dist(a, b) == hex_dist(b, a),
        hex_dist(a, a) == 0,
{
}

/// Between well-formed coordinates, the distance is zero exactly when they are equal.
pub proof fn lemma_distance_zero(a: HexCoord, b: HexCoord)
    requires
        a.wf(),
        b.wf(),
    ensures
        hex_dist(a, b) == 0 <==> a == b,
{
}

} // verus!
