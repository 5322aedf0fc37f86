//! The creatures of the sea and the fisherman, with their combat rules.
use vstd::prelude::*;

use crate::map::{
    hex_dist, lemma_total_le, lemma_total_update, marlin_total, origin, shark_total, Grid, HexCell,
    HexCoord, HexDir, WORLD_RADIUS,
};
use crate::rng::draw_ratio;

verus! {

/// Hit points after taking `amount` damage; they stop at the bounds of `i32`.
pub open spec fn damaged_hp(hp: int, amount: int) -> int {
    let x = hp - amount;
    if x < i32::MIN {
        i32::MIN as int
    } else if x > i32::MAX {
        i32::MAX as int
    } else {
        x
    }
}

fn sub_hp(hp: i32, amount: i32) -> (r: i32)
    ensures
        r == damaged_hp(hp as int, amount as int),
{
    if amount >= 0 {
        if hp >= i32::MIN + amount {
            hp - amount
        } else {
            i32::MIN
        }
    } else if hp <= i32::MAX + amount {
        hp - amount
    } else {
        i32::MAX
    }
}

/// Something with hit points that can be hurt.
pub trait Damageable: Sized {
    spec fn hp_spec(&self) -> int;

    spec fn initial_hp_spec(&self) -> int;

    /// The same value with its hit points replaced.
    spec fn with_hp(&self, hp: int) -> Self;

    fn take_damage(&mut self, amount: i32)
        ensures
            final(self).hp_spec() == damaged_hp(old(self).hp_spec(), amount as int),
            *final(self) == old(self).with_hp(final(self).hp_spec()),
            final(self).initial_hp_spec() == old(self).initial_hp_spec(),
    ;

    fn get_hp(&self) -> (r: i32)
        ensures
            r == self.hp_spec(),
    ;

    fn get_initial_hp(&self) -> (r: i32)
        ensures
            r == self.initial_hp_spec(),
    ;

    fn is_alive(&self) -> (r: bool)
        ensures
            r == (self.hp_spec() > 0),
    ;

    fn is_hurt(&self) -> (r: bool)
        ensures
            r == (self.hp_spec() < self.initial_hp_spec()),
    ;
}

/// Something that deals a fixed amount of damage.
pub trait Attacker<T: Damageable> {
    spec fn power_spec(&self) -> int;

    fn attack(&self, target: &mut T)
        ensures
            final(target).hp_spec() == damaged_hp(old(target).hp_spec(), self.power_spec()),
            *final(target) == old(target).with_hp(final(target).hp_spec()),
            final(target).initial_hp_spec() == old(target).initial_hp_spec(),
    ;
}

pub const MARLIN_INITIAL_HP: i32 = 4;

pub const MARLIN_MOVE_RADIUS: i32 = 1;

/// Prey: it wanders, and can be caught once discovered.
#[derive(Debug, Clone, Copy)]
pub struct Marlin {
    discovered: bool,
    hp: i32,
}

impl Marlin {
    pub closed spec fn discovered_spec(&self) -> bool {
        self.discovered
    }

    pub fn new() -> (m: Marlin)
        ensures
            !m.discovered_spec(),
            m.hp_spec() == MARLIN_INITIAL_HP,
            m.initial_hp_spec() == MARLIN_INITIAL_HP,
    {
        Marlin { discovered: false, hp: MARLIN_INITIAL_HP }
    }

    pub fn is_discovered(&self) -> (r: bool)
        ensures
            r == self.discovered_spec(),
    {
        self.discovered
    }

    /// Marks the marlin as seen by the fisherman.
    pub fn discover(&mut self)
        ensures
            final(self).discovered_spec(),
            final(self).hp_spec() == old(self).hp_spec(),
    {
        self.discovered = true;
    }
}

impl Damageable for Marlin {
    closed spec fn hp_spec(&self) -> int {
        self.hp as int
    }

    closed spec fn initial_hp_spec(&self) -> int {
        MARLIN_INITIAL_HP as int
    }

    closed spec fn with_hp(&self, hp: int) -> Marlin {
        Marlin { hp: hp as i32, ..*self }
    }

    fn take_damage(&mut self, amount: i32) {
        self.hp = sub_hp(self.hp, amount);
    }

    fn get_hp(&self) -> (r: i32) {
        self.hp
    }

    fn get_initial_hp(&self) -> (r: i32) {
        MARLIN_INITIAL_HP
    }

    fn is_alive(&self) -> (r: bool) {
        self.hp > 0
    }

    fn is_hurt(&self) -> (r: bool) {
        self.hp < MARLIN_INITIAL_HP
    }
}

pub const SHARK_INITIAL_HP: i32 = 2;

pub const SHARK_ATTACK_POWER: i32 = 1;

pub const SHARK_MOVE_RADIUS: i32 = 1;

pub const SHARK_VISUAL_RADIUS: i32 = 2;

pub const SHARK_SMELL_RADIUS: i32 = 3;

/// Predator: it hunts the fisherman and hurt marlins.
#[derive(Debug, Clone, Copy)]
pub struct Shark {
    hp: i32,
}

impl Shark {
    pub fn new() -> (s: Shark)
        ensures
            s.hp_spec() == SHARK_INITIAL_HP,
            s.initial_hp_spec() == SHARK_INITIAL_HP,
    {
        Shark { hp: SHARK_INITIAL_HP }
    }
}

impl Damageable for Shark {
    closed spec fn hp_spec(&self) -> int {
        self.hp as int
    }

    closed spec fn initial_hp_spec(&self) -> int {
        SHARK_INITIAL_HP as int
    }

    closed spec fn with_hp(&self, hp: int) -> Shark {
        Shark { hp: hp as i32 }
    }

    fn take_damage(&mut self, amount: i32) {
        self.hp = sub_hp(self.hp, amount);
    }

    fn get_hp(&self) -> (r: i32) {
        self.hp
    }

    fn get_initial_hp(&self) -> (r: i32) {
        SHARK_INITIAL_HP
    }

    fn is_alive(&self) -> (r: bool) {
        self.hp > 0
    }

    fn is_hurt(&self) -> (r: bool) {
        self.hp < SHARK_INITIAL_HP
    }
}

impl<T: Damageable> Attacker<T> for Shark {
    open spec fn power_spec(&self) -> int {
        SHARK_ATTACK_POWER as int
    }

    fn attack(&self, target: &mut T) {
        target.take_damage(SHARK_ATTACK_POWER);
    }
}

pub const FISHERMAN_MOVE_RADIUS: i32 = 1;

pub const FISHERMAN_CAPTURE_RADIUS: i32 = 1;

pub const FISHERMAN_DISCOVER_RADIUS: i32 = 2;

pub const FISHERMAN_VISUAL_RADIUS: i32 = 4;

pub const CAPTURE_FAIL_DAMAGE: i32 = 1;

/// The marlins that a capture attempt leaves in a cell, where `hits[i]` is
/// the draw made for `ms[i]`: an undiscovered marlin stays as it is, a
/// discovered one is taken on a hit and hurt on a miss.
pub open spec fn capture_result(ms: Seq<Marlin>, hits: Seq<bool>) -> Seq<Marlin>
    decreases ms.len(),
{
    if ms.len() == 0 {
        Seq::empty()
    } else {
        let before = capture_result(ms.drop_last(), hits.drop_last());
        let m = ms.last();
        if !m.discovered_spec() {
            before.push(m)
        } else if hits.last() {
            before
        } else {
            before.push(m.with_hp(damaged_hp(m.hp_spec(), CAPTURE_FAIL_DAMAGE as int)))
        }
    }
}

/// How many marlins a capture attempt takes.
pub open spec fn captured_count(ms: Seq<Marlin>, hits: Seq<bool>) -> int {
    ms.len() - capture_result(ms, hits).len()
}

/// The draws agree with a capture chance of `num / den`: a sure chance hits
/// every discovered marlin, a zero chance hits none.
pub open spec fn draws_fit(ms: Seq<Marlin>, hits: Seq<bool>, num: int, den: int) -> bool {
    &&& num == den ==> forall|k: int| 0 <= k < ms.len() && (#[trigger] ms[k]).discovered_spec() ==> hits[k]
    &&& num == 0 ==> forall|k: int| 0 <= k < hits.len() ==> !#[trigger] hits[k]
}

/// A counter that stops at `usize::MAX`.
pub open spec fn capped(x: int) -> int {
    if x > usize::MAX {
        usize::MAX as int
    } else {
        x
    }
}

/// The cell reached by a displacement, where the sums fit.
pub open spec fn shift(c: HexCoord, d: HexDir) -> HexCoord {
    HexCoord { q: (c.q + d.q) as i32, r: (c.r + d.r) as i32, s: (c.s + d.s) as i32 }
}

/// One of the six unit directions, or zero.
pub open spec fn unit_step(d: HexDir) -> bool {
    &&& d.wf()
    &&& -1 <= d.q <= 1
    &&& -1 <= d.r <= 1
    &&& -1 <= d.s <= 1
}

/// A unit step or no step at all, that stays inside the world.
pub open spec fn step_ok(c: HexCoord, d: HexDir) -> bool {
    unit_step(d) && shift(c, d).in_world()
}

/// `after` is `before` with every marlin marked as discovered and otherwise unchanged.
pub open spec fn discovered_all(before: Seq<Marlin>, after: Seq<Marlin>) -> bool {
    &&& after.len() == before.len()
    &&& forall|j: int|
        0 <= j < after.len() ==> (#[trigger] after[j]).discovered_spec() && after[j].hp_spec()
            == before[j].hp_spec()
}

/// The player's agent.
#[derive(Debug, Clone, Copy)]
pub struct Fisherman {
    coordinate: HexCoord,
    hp: i32,
    initial_hp: i32,
    attack_power: i32,
    captured_marlins: usize,
    capture_num: u32,
    capture_den: u32,
}

impl Fisherman {
    pub closed spec fn coord_spec(&self) -> HexCoord {
        self.coordinate
    }

    pub closed spec fn captured_spec(&self) -> int {
        self.captured_marlins as int
    }

    pub closed spec fn capture_num_spec(&self) -> int {
        self.capture_num as int
    }

    pub closed spec fn capture_den_spec(&self) -> int {
        self.capture_den as int
    }

    pub closed spec fn attack_power_spec(&self) -> int {
        self.attack_power as int
    }

    /// Inside the world, with a capture chance `num / den` in `0 ..= 1`.
    pub open spec fn wf(&self) -> bool {
        &&& self.coord_spec().in_world()
        &&& i32::MIN <= self.hp_spec() <= i32::MAX
        &&& 0 < self.capture_den_spec()
        &&& self.capture_num_spec() <= self.capture_den_spec()
    }

    /// A fisherman at the harbor with full health and nothing caught; a
    /// capture attempt succeeds with chance `capture_num / capture_den`.
    pub fn new(initial_hp: i32, attack_power: i32, capture_num: u32, capture_den: u32) -> (f:
        Fisherman)
        requires
            0 < capture_den,
            capture_num <= capture_den,
        ensures
            f.wf(),
            f.coord_spec() == origin(),
            f.hp_spec() == initial_hp,
            f.initial_hp_spec() == initial_hp,
            f.attack_power_spec() == attack_power,
            f.captured_spec() == 0,
            f.capture_num_spec() == capture_num,
            f.capture_den_spec() == capture_den,
    {
        Fisherman {
            coordinate: HexCoord::zero(),
            hp: initial_hp,
            initial_hp,
            attack_power,
            captured_marlins: 0,
            capture_num,
            capture_den,
        }
    }

    /// Moves one step along `dir`; a direction that is not a unit step or
    /// zero, or that leaves the world, is refused and nothing changes.
    pub fn operate(&mut self, dir: HexDir) -> (ok: bool)
        requires
            old(self).wf(),
        ensures
            ok == step_ok(old(self).coord_spec(), dir),
            final(self).wf(),
            ok ==> final(self).coord_spec() == shift(old(self).coord_spec(), dir),
            !ok ==> *final(self) == *old(self),
            final(self).hp_spec() == old(self).hp_spec(),
            final(self).initial_hp_spec() == old(self).initial_hp_spec(),
            final(self).captured_spec() == old(self).captured_spec(),
            final(self).attack_power_spec() == old(self).attack_power_spec(),
            final(self).capture_num_spec() == old(self).capture_num_spec(),
            final(self).capture_den_spec() == old(self).capture_den_spec(),
    {
        if dir.q < -1 || dir.q > 1 || dir.r < -1 || dir.r > 1 || dir.s < -1 || dir.s > 1 || dir.q
            + dir.r + dir.s != 0 {
            return false;
        }
        let c = self.coordinate.add(dir);
        if c.q < -WORLD_RADIUS || c.q > WORLD_RADIUS || c.r < -WORLD_RADIUS || c.r > WORLD_RADIUS
            || c.s < -WORLD_RADIUS || c.s > WORLD_RADIUS {
            return false;
        }
        self.coordinate = c;
        true
    }

    /// Marks every marlin within the discovery radius as discovered; fails
    /// at the harbor, where nothing changes.
    pub fn discover_marlins(&self, grid: &mut Grid) -> (ok: bool)
        requires
            self.wf(),
            old(grid).wf(),
        ensures
            ok == (self.coord_spec() != origin()),
            !ok ==> *final(grid) == *old(grid),
            final(grid).cells@.len() == old(grid).cells@.len(),
            marlin_total(final(grid).cells@) == marlin_total(old(grid).cells@),
            shark_total(final(grid).cells@) == shark_total(old(grid).cells@),
            forall|i: int|
                0 <= i < final(grid).cells@.len() ==> {
                    let (c, cell) = #[trigger] final(grid).cells@[i];
                    let (c0, cell0) = old(grid).cells@[i];
                    &&& c == c0
                    &&& cell.sharks == cell0.sharks
                    &&& if ok && hex_dist(c0, self.coord_spec()) <= FISHERMAN_DISCOVER_RADIUS {
                        discovered_all(cell0.marlins@, cell.marlins@)
                    } else {
                        cell.marlins == cell0.marlins
                    }
                },
    {
        if self.coordinate == HexCoord::zero() {
            return false;
        }
        let n = grid.cells.len();
        let mut i: usize = 0;
        while i < n
            invariant
                self.wf(),
                n == old(grid).cells@.len(),
                grid.cells@.len() == n,
                0 <= i <= n,
                forall|k: int| i <= k < n ==> #[trigger] grid.cells@[k] == old(grid).cells@[k],
                forall|k: int|
                    0 <= k < i ==> {
                        let (c, cell) = #[trigger] grid.cells@[k];
                        let (c0, cell0) = old(grid).cells@[k];
                        &&& c == c0
                        &&& cell.sharks == cell0.sharks
                        &&& if hex_dist(c0, self.coord_spec()) <= FISHERMAN_DISCOVER_RADIUS {
                            discovered_all(cell0.marlins@, cell.marlins@)
                        } else {
                            cell.marlins == cell0.marlins
                        }
                    },
                old(grid).wf(),
            decreases n - i,
        {
            assert(old(grid).cells@[i as int].0.in_world());
            if grid.cells[i].0.distance(&self.coordinate) <= FISHERMAN_DISCOVER_RADIUS {
                let m = grid.cells[i].1.marlins.len();
                let ghost before = grid.cells@;
                let mut j: usize = 0;
                while j < m
                    invariant
                        n == old(grid).cells@.len(),
                        grid.cells@.len() == n,
                        0 <= i < n,
                        0 <= j <= m,
                        m == old(grid).cells@[i as int].1.marlins@.len(),
                        forall|k: int| 0 <= k < n && k != i ==> #[trigger] grid.cells@[k] == before[k],
                        before[i as int] == old(grid).cells@[i as int],
                        grid.cells@[i as int].0 == old(grid).cells@[i as int].0,
                        grid.cells@[i as int].1.sharks == old(grid).cells@[i as int].1.sharks,
                        grid.cells@[i as int].1.marlins@.len() == m,
                        forall|l: int|
                            0 <= l < j ==> (#[trigger] grid.cells@[i as int].1.marlins@[l]).discovered_spec()
                                && grid.cells@[i as int].1.marlins@[l].hp_spec() == old(
                                grid,
                            ).cells@[i as int].1.marlins@[l].hp_spec(),
                        forall|l: int|
                            j <= l < m ==> #[trigger] grid.cells@[i as int].1.marlins@[l] == old(
                                grid,
                            ).cells@[i as int].1.marlins@[l],
                    decreases m - j,
                {
                    grid.cells[i].1.marlins[j].discover();
                    j = j + 1;
                }
                assert(discovered_all(old(grid).cells@[i as int].1.marlins@, grid.cells@[i as int].1.marlins@));
            }
            i = i + 1;
        }
        proof {
            let fm = |cell: HexCell| cell.marlins@.len() as int;
            let fs = |cell: HexCell| cell.sharks@.len() as int;
            assert forall|k: int| 0 <= k < n implies fm(#[trigger] grid.cells@[k].1) == fm(old(grid).cells@[k].1)
                && fs(grid.cells@[k].1) == fs(old(grid).cells@[k].1) by {
                assert(grid.cells@[k] == grid.cells@[k]);
            }
            lemma_total_le(grid.cells@, old(grid).cells@, fm);
            lemma_total_le(old(grid).cells@, grid.cells@, fm);
            lemma_total_le(grid.cells@, old(grid).cells@, fs);
            lemma_total_le(old(grid).cells@, grid.cells@, fs);
        }
        true
    }

    /// Tries to catch the marlins of the cell at `coord`. Fails at the harbor
    /// and beyond the capture radius. Each discovered marlin there is caught
    /// with the fisherman's capture chance and taken out of the cell, or else
    /// hurt; undiscovered marlins stay as they are. A coordinate the grid does
    /// not keep is an empty cell.
    pub fn capture_marlins(
        &mut self,
        coord: HexCoord,
        grid: &mut Grid,
        g: &mut rand::rngs::StdRng,
    ) -> (ok: bool)
        requires
            old(self).wf(),
            old(grid).wf(),
            coord.wf(),
            coord.within(crate::map::COORD_LIMIT as int),
        ensures
            ok == (old(self).coord_spec() != origin() && hex_dist(old(self).coord_spec(), coord)
                <= FISHERMAN_CAPTURE_RADIUS),
            !ok || !old(grid).holds(coord) ==> *final(self) == *old(self) && *final(grid) == *old(grid)
                && *final(g) == *old(g),
            hex_dist(old(self).coord_spec(), coord) > FISHERMAN_CAPTURE_RADIUS ==> final(
                self).captured_spec() == old(self).captured_spec() && *final(grid) == *old(grid),
            final(self).wf(),
            final(self).captured_spec() >= old(self).captured_spec(),
            marlin_total(final(grid).cells@) <= marlin_total(old(grid).cells@),
            shark_total(final(grid).cells@) == shark_total(old(grid).cells@),
            final(self).coord_spec() == old(self).coord_spec(),
            final(self).hp_spec() == old(self).hp_spec(),
            final(self).initial_hp_spec() == old(self).initial_hp_spec(),
            final(self).attack_power_spec() == old(self).attack_power_spec(),
            final(self).capture_num_spec() == old(self).capture_num_spec(),
            final(self).capture_den_spec() == old(self).capture_den_spec(),
            final(grid).cells@.len() == old(grid).cells@.len(),
            forall|i: int|
                0 <= i < old(grid).cells@.len() && old(grid).cells@[i].0 != coord
                    ==> #[trigger] final(grid).cells@[i] == old(grid).cells@[i],
            ok ==> forall|i: int|
                0 <= i < old(grid).cells@.len() && old(grid).cells@[i].0 == coord ==> {
                    let ms = old(grid).cells@[i].1.marlins@;
                    &&& (#[trigger] final(grid).cells@[i]).0 == coord
                    &&& final(grid).cells@[i].1.sharks == old(grid).cells@[i].1.sharks
                    &&& exists|hits: Seq<bool>|
                        {
                            &&& hits.len() == ms.len()
                            &&& draws_fit(ms, hits, old(self).capture_num_spec(), old(self).capture_den_spec())
                            &&& final(grid).cells@[i].1.marlins@ == capture_result(ms, hits)
                            &&& final(self).captured_spec() == capped(
                                old(self).captured_spec() + captured_count(ms, hits),
                            )
                        }
                },
    {
        if self.coordinate == HexCoord::zero() {
            return false;
        }
        if self.coordinate.distance(&coord) > FISHERMAN_CAPTURE_RADIUS {
            return false;
        }
        let i = match grid.find(&coord) {
            Some(i) => i,
            None => {
                return true;
            },
        };
        let mut old_marlins: Vec<Marlin> = Vec::new();
        std::mem::swap(&mut old_marlins, &mut grid.cells[i].1.marlins);
        let ghost ms = old_marlins@;
        let ghost start = self.captured_marlins as int;
        let mut kept: Vec<Marlin> = Vec::new();
        let ghost mut hits: Seq<bool> = Seq::empty();
        let mut j: usize = 0;
        while j < old_marlins.len()
            invariant
                self.wf(),
                ms == old_marlins@,
                0 <= j <= ms.len(),
                hits.len() == j,
                draws_fit(ms.take(j as int), hits, self.capture_num as int, self.capture_den as int),
                kept@ == capture_result(ms.take(j as int), hits),
                self.captured_marlins == capped(start + captured_count(ms.take(j as int), hits)),
                self.coordinate == old(self).coordinate,
                self.hp == old(self).hp,
                self.initial_hp == old(self).initial_hp,
                self.attack_power == old(self).attack_power,
                self.capture_num == old(self).capture_num,
                self.capture_den == old(self).capture_den,
            decreases ms.len() - j,
        {
            let m = old_marlins[j];
            let ghost prev = hits;
            let ghost prev_count = self.captured_marlins;
            assert(ms.take(j + 1).drop_last() =~= ms.take(j as int));
            assert(ms.take(j + 1).last() == m);
            if !m.discovered {
                kept.push(m);
                proof {
                    hits = hits.push(false);
                }
            } else if draw_ratio(g, self.capture_num, self.capture_den) {
                if self.captured_marlins < usize::MAX {
                    self.captured_marlins = self.captured_marlins + 1;
                }
                proof {
                    hits = hits.push(true);
                }
            } else {
                let mut hurt = m;
                hurt.take_damage(CAPTURE_FAIL_DAMAGE);
                kept.push(hurt);
                proof {
                    hits = hits.push(false);
                }
            }
            proof {
                assert(hits.drop_last() =~= prev);
                assert forall|k: int| 0 <= k < j ==> ms.take(j + 1)[k] == #[trigger] ms.take(j as int)[k] by {}
                assert(forall|k: int| 0 <= k < j ==> hits[k] == #[trigger] prev[k]);
                assert(capture_result(ms.take(j + 1), hits) == if !m.discovered {
                    capture_result(ms.take(j as int), prev).push(m)
                } else if hits.last() {
                    capture_result(ms.take(j as int), prev)
                } else {
                    capture_result(ms.take(j as int), prev).push(
                        m.with_hp(damaged_hp(m.hp_spec(), CAPTURE_FAIL_DAMAGE as int)),
                    )
                });
            }
            j = j + 1;
        }
        assert(ms.take(ms.len() as int) =~= ms);
        proof {
            lemma_capture_shrinks(ms, hits);
        }
        grid.cells[i].1.marlins = kept;
        proof {
            assert(grid.cells@ =~= old(grid).cells@.update(i as int, grid.cells@[i as int]));
            lemma_total_update(old(grid).cells@, i as int, grid.cells@[i as int], |cell: HexCell| cell.marlins@.len() as int);
            lemma_total_update(old(grid).cells@, i as int, grid.cells@[i as int], |cell: HexCell| cell.sharks@.len() as int);
        }
        true
    }

    /// Hits a shark with the fisherman's attack power; fails at the harbor
    /// and when there is no shark in the slot.
    pub fn attack_shark(&self, shark: Option<&mut Shark>) -> (ok: bool)
        ensures
            ok == (self.coord_spec() != origin() && shark.is_some()),
            match shark {
                Some(s) => if ok {
                    final(s).hp_spec() == damaged_hp(s.hp_spec(), self.attack_power_spec())
                        && *final(s) == s.with_hp(final(s).hp_spec())
                } else {
                    *final(s) == *s
                },
                None => true,
            },
    {
        if self.coordinate == HexCoord::zero() {
            return false;
        }
        match shark {
            Some(s) => {
                self.attack(s);
                true
            },
            None => false,
        }
    }

    pub fn get_coord(&self) -> (c: HexCoord)
        ensures
            c == self.coord_spec(),
    {
        self.coordinate
    }

    pub fn get_captured_marlins(&self) -> (n: usize)
        ensures
            n == self.captured_spec(),
    {
        self.captured_marlins
    }
}

impl Damageable for Fisherman {
    closed spec fn hp_spec(&self) -> int {
        self.hp as int
    }

    closed spec fn initial_hp_spec(&self) -> int {
        self.initial_hp as int
    }

    closed spec fn with_hp(&self, hp: int) -> Fisherman {
        Fisherman { hp: hp as i32, ..*self }
    }

    fn take_damage(&mut self, amount: i32) {
        self.hp = sub_hp(self.hp, amount);
    }

    fn get_hp(&self) -> (r: i32) {
        self.hp
    }

    fn get_initial_hp(&self) -> (r: i32) {
        self.initial_hp
    }

    fn is_alive(&self) -> (r: bool) {
        self.hp > 0
    }

    fn is_hurt(&self) -> (r: bool) {
        self.hp < self.initial_hp
    }
}

impl Attacker<Shark> for Fisherman {
    closed spec fn power_spec(&self) -> int {
        self.attack_power as int
    }

    fn attack(&self, target: &mut Shark) {
        target.take_damage(self.attack_power);
    }
}

impl Marlin {
    /// Changing the hit points keeps the discovered flag.
    pub proof fn lemma_with_hp(self, hp: int)
        requires
            i32::MIN <= hp <= i32::MAX,
        ensures
            self.with_hp(hp).hp_spec() == hp,
            self.with_hp(hp).discovered_spec() == self.discovered_spec(),
    {
    }
}

impl Shark {
    /// Changing the hit points sets them and nothing else.
    pub proof fn lemma_with_hp(self, hp: int)
        requires
            i32::MIN <= hp <= i32::MAX,
        ensures
            self.with_hp(hp).hp_spec() == hp,
    {
    }
}

impl Fisherman {
    /// Changing the hit points touches nothing else.
    pub proof fn lemma_with_hp(self, hp: int)
        requires
            i32::MIN <= hp <= i32::MAX,
        ensures
            self.with_hp(hp).hp_spec() == hp,
            self.with_hp(hp).coord_spec() == self.coord_spec(),
            self.with_hp(hp).captured_spec() == self.captured_spec(),
            self.with_hp(hp).initial_hp_spec() == self.initial_hp_spec(),
            self.with_hp(hp).attack_power_spec() == self.attack_power_spec(),
            self.with_hp(hp).capture_num_spec() == self.capture_num_spec(),
            self.with_hp(hp).capture_den_spec() == self.capture_den_spec(),
    {
    }
}

/// A capture attempt never adds marlins to a cell.
pub proof fn lemma_capture_shrinks(ms: Seq<Marlin>, hits: Seq<bool>)
    ensures
        capture_result(ms, hits).len() <= ms.len(),
    decreases ms.len(),
{
    if ms.len() > 0 {
        lemma_capture_shrinks(ms.drop_last(), hits.drop_last());
    }
}

/// A marlin that is not discovered leaves a capture attempt as it came,
/// whatever was drawn for it, and adds nothing to the number caught.
pub proof fn lemma_capture_spares_undiscovered(ms: Seq<Marlin>, hits: Seq<bool>, m: Marlin, hit: bool)
    requires
        !m.discovered_spec(),
    ensures
        capture_result(ms.push(m), hits.push(hit)) == capture_result(ms, hits).push(m),
        captured_count(ms.push(m), hits.push(hit)) == captured_count(ms, hits),
{
    assert(ms.push(m).drop_last() =~= ms);
    assert(hits.push(hit).drop_last() =~= hits);
}

} // verus!
