//! One level of the game: the turn protocol, the spawn engine and the
//! movement rules of marlins and sharks; and the game, a run of levels.
use vstd::prelude::*;

use crate::entities::{
    damaged_hp, shift, step_ok, unit_step, Attacker, Damageable, Fisherman, Marlin, Shark,
    FISHERMAN_VISUAL_RADIUS, MARLIN_INITIAL_HP, MARLIN_MOVE_RADIUS, SHARK_INITIAL_HP, SHARK_ATTACK_POWER, SHARK_MOVE_RADIUS,
    SHARK_SMELL_RADIUS, SHARK_VISUAL_RADIUS,
};
use crate::map::{
    hex_dist, lemma_component_bound, lemma_distance_symmetric, lemma_distance_zero, lemma_push_keeps, lemma_total_filter, lemma_total_le,
    lemma_total_update, lemma_total_zero, marlin_total, origin,
    shark_total, Grid, HexCell, HexCoord, HexDir, COORD_LIMIT, WORLD_RADIUS,
};
use crate::rng::{draw_index, draw_u32, fresh_seed, pick, seeded};

verus! {

/// What the player does in one turn.
#[derive(Debug, Clone, Copy)]
pub enum UserAction {
    Move(HexDir),
    Discover,
    Capture(HexDir),
    Attack(HexCoord, usize),
}

/// Chances are given in millionths.
pub const CHANCE_SCALE: u32 = 1_000_000;

/// Fixed-point one for the uniform draws: a draw `u` stands for `u / 2^32`.
pub const FIXED_ONE: u64 = 4_294_967_296;

/// How many creatures appear in a cell, as a function of the cell's distance
/// from the harbor. A Poisson count with mean `lambda` leaves a cell empty with
/// chance `e^(-lambda)`; that chance, in millionths, is what is stored: the
/// entry of `by_distance` for the distances it covers, `beyond` for the rest.
#[derive(Debug, Clone)]
pub struct SpawnIntensity {
    pub by_distance: Vec<u32>,
    pub beyond: u32,
}

impl SpawnIntensity {
    /// The chance, in millionths, that a cell at distance `d` stays empty.
    pub open spec fn empty_chance(&self, d: int) -> int {
        if 0 <= d < self.by_distance@.len() {
            self.by_distance@[d] as int
        } else {
            self.beyond as int
        }
    }

    /// The same intensity at every distance.
    pub fn constant(empty_chance: u32) -> (s: SpawnIntensity)
        ensures
            forall|d: int| s.empty_chance(d) == empty_chance,
    {
        SpawnIntensity { by_distance: Vec::new(), beyond: empty_chance }
    }

    pub fn at(&self, d: i32) -> (c: u32)
        ensures
            c == self.empty_chance(d as int),
    {
        if d >= 0 && (d as usize) < self.by_distance.len() {
            self.by_distance[d as usize]
        } else {
            self.beyond
        }
    }
}

/// One multiplication of the Poisson draw: the running product `p` times the
/// draw `u / 2^32`, rounded down; `None` once it falls below the chance of
/// drawing zero (or reaches zero), else the new product.
pub open spec fn poisson_next(p: int, u: int, empty_chance: int) -> Option<int> {
    let q = p * u / (FIXED_ONE as int);
    if q == 0 || q * (CHANCE_SCALE as int) < empty_chance * (FIXED_ONE as int) {
        None
    } else {
        Some(q)
    }
}

/// The running product after the draws `us`, starting from one; `None` if the
/// draw stopped on one of them.
pub open spec fn poisson_trace(us: Seq<u32>, empty_chance: int) -> Option<int>
    decreases us.len(),
{
    if us.len() == 0 {
        Some(FIXED_ONE as int)
    } else {
        match poisson_trace(us.drop_last(), empty_chance) {
            Some(p) => poisson_next(p, us.last() as int, empty_chance),
            None => None,
        }
    }
}

/// A larger mean draws at least as long: on the same draws, a smaller chance
/// of drawing zero goes on wherever a larger one goes on, through the same
/// running products.
pub proof fn lemma_poisson_monotone(us: Seq<u32>, e1: int, e2: int)
    requires
        e1 <= e2,
    ensures
        poisson_trace(us, e2) is Some ==> poisson_trace(us, e1) == poisson_trace(us, e2),
    decreases us.len(),
{
    if us.len() > 0 {
        lemma_poisson_monotone(us.drop_last(), e1, e2);
        assert(e1 * (FIXED_ONE as int) <= e2 * (FIXED_ONE as int)) by (nonlinear_arith)
            requires
                e1 <= e2,
        ;
    }
}

/// `n` is what a Poisson draw with chance `empty_chance` of zero can give:
/// the number of draws before the one that stopped it.
pub open spec fn poisson_drawn(n: int, empty_chance: int) -> bool {
    exists|us: Seq<u32>|
        us.len() == n + 1 && poisson_trace(us.drop_last(), empty_chance) is Some && #[trigger] poisson_trace(
            us,
            empty_chance,
        ) is None
}

/// The intensity of marlins or of sharks.
pub open spec fn species_intensity(marlins: bool, m: SpawnIntensity, s: SpawnIntensity) -> SpawnIntensity {
    if marlins {
        m
    } else {
        s
    }
}

/// The sum of the counts drawn.
pub open spec fn draw_sum(draws: Seq<(HexCoord, nat)>) -> int
    decreases draws.len(),
{
    if draws.len() == 0 {
        0
    } else {
        draw_sum(draws.drop_last()) + draws.last().1
    }
}

/// How many creatures the draws send to `t`.
pub open spec fn sent(draws: Seq<(HexCoord, nat)>, t: HexCoord) -> int
    decreases draws.len(),
{
    if draws.len() == 0 {
        0
    } else {
        sent(draws.drop_last(), t) + if draws.last().0 == t {
            draws.last().1 as int
        } else {
            0
        }
    }
}

proof fn lemma_sent_push(draws: Seq<(HexCoord, nat)>, d: (HexCoord, nat), t: HexCoord)
    ensures
        sent(draws.push(d), t) == sent(draws, t) + if d.0 == t {
            d.1 as int
        } else {
            0
        },
{
    assert(draws.push(d).drop_last() =~= draws);
}

proof fn lemma_sent_zero(draws: Seq<(HexCoord, nat)>, t: HexCoord)
    requires
        forall|a: int| 0 <= a < draws.len() && (#[trigger] draws[a]).0 == t ==> draws[a].1 == 0,
    ensures
        sent(draws, t) == 0,
    decreases draws.len(),
{
    if draws.len() > 0 {
        let d = draws.drop_last();
        assert forall|a: int| 0 <= a < d.len() && (#[trigger] d[a]).0 == t implies d[a].1 == 0 by {
            assert(d[a] == draws[a]);
        }
        lemma_sent_zero(d, t);
    }
}

/// How many marlins, or sharks, a cell holds.
pub open spec fn species_len(cell: HexCell, marlins: bool) -> int {
    if marlins {
        cell.marlins@.len() as int
    } else {
        cell.sharks@.len() as int
    }
}

/// How many of the species cell `i` of `g` holds; none past its end.
pub open spec fn base_len(g: Grid, i: int, marlins: bool) -> int {
    if 0 <= i < g.cells@.len() {
        species_len(g.cells@[i].1, marlins)
    } else {
        0
    }
}

/// Cell `i` of `g1` holds what it held in `g0` plus what the draws sent to it,
/// of the species spawned, and the same number of the other species.
pub open spec fn count_at(g0: Grid, g1: Grid, draws: Seq<(HexCoord, nat)>, marlins: bool, i: int) -> bool {
    &&& species_len(g1.cells@[i].1, marlins) == base_len(g0, i, marlins) + sent(draws, g1.cells@[i].0)
    &&& species_len(g1.cells@[i].1, !marlins) == base_len(g0, i, !marlins)
}

/// Every cell of `g1` gained exactly what the draws sent to it.
pub open spec fn counts_sent(g0: Grid, g1: Grid, draws: Seq<(HexCoord, nat)>, marlins: bool) -> bool {
    forall|i: int| 0 <= i < g1.cells@.len() ==> #[trigger] count_at(g0, g1, draws, marlins, i)
}

/// Cell `i` of `g1` holds what it held in `g0` plus the marlins that `md`
/// and the sharks that `sd` sent to it.
pub open spec fn spawn_count_at(g0: Grid, g1: Grid, md: Seq<(HexCoord, nat)>, sd: Seq<(HexCoord, nat)>, i: int) -> bool {
    &&& g1.cells@[i].1.marlins@.len() == base_len(g0, i, true) + sent(md, g1.cells@[i].0)
    &&& g1.cells@[i].1.sharks@.len() == base_len(g0, i, false) + sent(sd, g1.cells@[i].0)
}

/// Every draw that sent something names a cell of `g`.
pub open spec fn draws_held(g: Grid, draws: Seq<(HexCoord, nat)>) -> bool {
    forall|a: int| 0 <= a < draws.len() && (#[trigger] draws[a]).1 > 0 ==> g.holds(draws[a].0)
}

/// Every draw is for a cell of the world at distance `radius` from `fc`, and
/// is a Poisson draw with the chance of zero that `inten` gives at the cell's
/// distance from the harbor; every such cell has a draw.
pub open spec fn ring_draws(draws: Seq<(HexCoord, nat)>, fc: HexCoord, radius: int, inten: SpawnIntensity) -> bool {
    &&& forall|k: int|
        0 <= k < draws.len() ==> {
            let (c, n) = #[trigger] draws[k];
            &&& c.in_world()
            &&& hex_dist(fc, c) == radius
            &&& poisson_drawn(n as int, inten.empty_chance(hex_dist(c, origin())))
        }
    &&& forall|c: HexCoord|
        c.in_world() && hex_dist(fc, c) == radius ==> exists|k: int| 0 <= k < draws.len() && (#[trigger] draws[k]).0 == c
}

/// One step of the Poisson draw, on a running product in `(0, 1]`.
pub fn poisson_step(p: u64, u: u32, empty_chance: u32) -> (next: Option<u64>)
    requires
        0 < p <= FIXED_ONE,
    ensures
        match next {
            Some(q) => poisson_next(p as int, u as int, empty_chance as int) == Some(q as int)
                && 0 < q < p,
            None => poisson_next(p as int, u as int, empty_chance as int) is None,
        },
{
    assert(empty_chance as int * FIXED_ONE as int <= u32::MAX as int * FIXED_ONE as int) by (
    nonlinear_arith);
    assert((p as int) * (u as int) < (p as int) * (FIXED_ONE as int)) by (nonlinear_arith)
        requires
            0 < p,
            u < FIXED_ONE,
    ;
    assert((p as int) * (u as int) <= (FIXED_ONE as int) * (FIXED_ONE as int)) by (nonlinear_arith)
        requires
            p <= FIXED_ONE,
            u < FIXED_ONE,
    ;
    let q: u64 = p * (u as u64) / FIXED_ONE;
    assert(q < p) by (nonlinear_arith)
        requires
            q == (p as int) * (u as int) / (FIXED_ONE as int),
            (p as int) * (u as int) < (p as int) * (FIXED_ONE as int),
    ;
    if q == 0 || (q as u128) * (CHANCE_SCALE as u128) < (empty_chance as u128) * (FIXED_ONE as u128) {
        None
    } else {
        Some(q)
    }
}

/// Draws a Poisson count: multiplies uniform draws in `[0, 1)` until the
/// product falls below the chance `empty_chance / CHANCE_SCALE` of drawing
/// zero, and counts the draws before that one. A chance of one or more
/// always gives zero.
pub fn sample_poisson(empty_chance: u32, g: &mut rand::rngs::StdRng) -> (n: usize)
    ensures
        poisson_drawn(n as int, empty_chance as int),
        empty_chance >= CHANCE_SCALE ==> n == 0,
{
    let mut p: u64 = FIXED_ONE;
    let mut n: usize = 0;
    let ghost mut us: Seq<u32> = Seq::empty();
    loop
        invariant
            0 < p <= FIXED_ONE,
            n as int + p as int <= FIXED_ONE,
            n > 0 ==> p < FIXED_ONE,
            empty_chance >= CHANCE_SCALE ==> n == 0,
            us.len() == n,
            poisson_trace(us, empty_chance as int) == Some(p as int),
        decreases p,
    {
        let u: u32 = draw_u32(g);
        let ghost prev = us;
        proof {
            us = us.push(u);
            assert(us.drop_last() =~= prev);
        }
        match poisson_step(p, u, empty_chance) {
            None => {
                assert(us.drop_last() =~= prev);
                assert(poisson_trace(us, empty_chance as int) is None);
                return n;
            },
            Some(q) => {
                assert(empty_chance < CHANCE_SCALE) by (nonlinear_arith)
                    requires
                        q < FIXED_ONE,
                        (q as int) * (CHANCE_SCALE as int) >= empty_chance as int * FIXED_ONE as int,
                ;
                p = q;
                n = n + 1;
            },
        }
    }
}

/// The creatures of `v` that are alive, in order.
pub open spec fn survivors<T: Damageable>(v: Seq<T>) -> Seq<T> {
    v.filter(|x: T| x.hp_spec() > 0)
}

/// Hit points after `n` shark bites.
pub open spec fn bitten(hp: int, n: nat) -> int
    decreases n,
{
    if n == 0 {
        hp
    } else {
        damaged_hp(bitten(hp, (n - 1) as nat), SHARK_ATTACK_POWER as int)
    }
}

/// Where a marlin from `c` may be after its move to `t`: a cell it may swim
/// to if it is alive, its own cell if it is dead.
pub open spec fn marlin_step(c: HexCoord, t: HexCoord, m: Marlin) -> bool {
    if m.hp_spec() > 0 {
        can_swim(c, t, MARLIN_MOVE_RADIUS as int)
    } else {
        t == c
    }
}

/// The creatures of `s`, each paired with the key `c` of their cell.
pub open spec fn tagged<T>(c: HexCoord, s: Seq<T>) -> Seq<(HexCoord, T)> {
    s.map_values(|x: T| (c, x))
}

/// All marlins of the cells with their cells' keys, cell by cell in grid order.
pub open spec fn flat_marlins(cells: Seq<(HexCoord, HexCell)>) -> Seq<(HexCoord, Marlin)>
    decreases cells.len(),
{
    if cells.len() == 0 {
        Seq::empty()
    } else {
        flat_marlins(cells.drop_last()) + tagged(cells.last().0, cells.last().1.marlins@)
    }
}

/// The creatures of `movers` sent to `t`, in order: mover `a` goes to `dests[a]`.
pub open spec fn arrivals<T>(movers: Seq<(HexCoord, T)>, dests: Seq<HexCoord>, t: HexCoord) -> Seq<T>
    decreases dests.len(),
{
    if dests.len() == 0 {
        Seq::empty()
    } else {
        let prev = arrivals(movers, dests.drop_last(), t);
        if dests.last() == t {
            prev.push(movers[dests.len() - 1].1)
        } else {
            prev
        }
    }
}

/// The marlins of `g0`, taken cell by cell, go to `dests` by moves allowed
/// from their own cells, and every cell of `g1` holds, in order, the marlins
/// sent to it.
pub open spec fn marlins_moved(g0: Grid, g1: Grid, dests: Seq<HexCoord>) -> bool {
    let movers = flat_marlins(g0.cells@);
    &&& dests.len() == movers.len()
    &&& forall|a: int| 0 <= a < dests.len() ==> marlin_step(movers[a].0, #[trigger] dests[a], movers[a].1)
    &&& forall|i: int|
        0 <= i < g1.cells@.len() ==> (#[trigger] g1.cells@[i]).1.marlins@ == arrivals(movers, dests, g1.cells@[i].0)
}

proof fn lemma_arrivals_none<T>(movers: Seq<(HexCoord, T)>, dests: Seq<HexCoord>, t: HexCoord)
    requires
        forall|a: int| 0 <= a < dests.len() ==> #[trigger] dests[a] != t,
    ensures
        arrivals(movers, dests, t) == Seq::<T>::empty(),
    decreases dests.len(),
{
    if dests.len() > 0 {
        let d = dests.drop_last();
        assert forall|a: int| 0 <= a < d.len() implies #[trigger] d[a] != t by {
            assert(d[a] == dests[a]);
        }
        lemma_arrivals_none(movers, d, t);
    }
}

proof fn lemma_arrivals_push<T>(movers: Seq<(HexCoord, T)>, dests: Seq<HexCoord>, d: HexCoord, t: HexCoord)
    ensures
        arrivals(movers, dests.push(d), t) == if d == t {
            arrivals(movers, dests, t).push(movers[dests.len() as int].1)
        } else {
            arrivals(movers, dests, t)
        },
{
    assert(dests.push(d).drop_last() =~= dests);
}

proof fn lemma_flat_marlins_take(cells: Seq<(HexCoord, HexCell)>, i: int)
    requires
        0 <= i < cells.len(),
    ensures
        flat_marlins(cells.take(i + 1)) == flat_marlins(cells.take(i)) + tagged(
            cells[i].0,
            cells[i].1.marlins@,
        ),
{
    assert(cells.take(i + 1).drop_last() =~= cells.take(i));
    assert(cells.take(i + 1).last() == cells[i]);
}

/// The sharks of this cell bite its marlins: it is not the fisherman's cell,
/// and it holds marlins.
pub open spec fn bite_cell(e: (HexCoord, HexCell), fc: HexCoord) -> bool {
    e.0 != fc && e.1.marlins@.len() > 0
}

/// The sharks of this cell swim: it is not the fisherman's cell, and it holds
/// no marlin.
pub open spec fn moves_out(e: (HexCoord, HexCell), fc: HexCoord) -> bool {
    e.0 != fc && e.1.marlins@.len() == 0
}

/// A marlin after one shark bite.
pub open spec fn bite(m: Marlin) -> Marlin {
    m.with_hp(damaged_hp(m.hp_spec(), SHARK_ATTACK_POWER as int))
}

/// The marlins `ms` after the sharks `ss` bite in turn, shark `l` biting
/// marlin `vs[l]`; dead sharks do not bite.
pub open spec fn bitten_by(ms: Seq<Marlin>, ss: Seq<Shark>, vs: Seq<int>) -> Seq<Marlin>
    decreases ss.len(),
{
    if ss.len() == 0 {
        ms
    } else {
        let prev = bitten_by(ms, ss.drop_last(), vs.drop_last());
        let v = vs.last();
        if ss.last().hp_spec() > 0 && 0 <= v < prev.len() {
            prev.update(v, bite(prev[v]))
        } else {
            prev
        }
    }
}

proof fn lemma_bitten_by_len(ms: Seq<Marlin>, ss: Seq<Shark>, vs: Seq<int>)
    ensures
        bitten_by(ms, ss, vs).len() == ms.len(),
    decreases ss.len(),
{
    if ss.len() > 0 {
        lemma_bitten_by_len(ms, ss.drop_last(), vs.drop_last());
    }
}

/// Victims for the sharks `ss` among `n` marlins: one index per shark, below
/// `n` when there are marlins.
pub open spec fn victims_fit(vs: Seq<int>, ss: Seq<Shark>, n: int) -> bool {
    vs.len() == ss.len() && (n > 0 ==> forall|l: int| 0 <= l < vs.len() ==> 0 <= #[trigger] vs[l] < n)
}

/// The bites of the shark phase: in every cell of `g0` where sharks bite,
/// the marlins of `g1` are those of `g0` bitten by its sharks, each living
/// shark biting the marlin that `victims` names; elsewhere marlins are
/// unchanged, and new cells hold none.
pub open spec fn sharks_bit(g0: Grid, g1: Grid, fc: HexCoord, victims: Seq<Seq<int>>) -> bool {
    &&& victims.len() == g0.cells@.len()
    &&& g1.cells@.len() >= g0.cells@.len()
    &&& forall|i: int| 0 <= i < g1.cells@.len() ==> #[trigger] bit_at(g0, g1, fc, victims, i)
}

/// Cell `i` of `g1` as the shark bites left it from `g0`.
pub open spec fn bit_at(g0: Grid, g1: Grid, fc: HexCoord, victims: Seq<Seq<int>>, i: int) -> bool {
    let e0 = g0.cells@[i];
    &&& i < g0.cells@.len() ==> victims_fit(victims[i], e0.1.sharks@, e0.1.marlins@.len() as int)
    &&& g1.cells@[i].1.marlins@ == if i < g0.cells@.len() {
        if bite_cell(e0, fc) {
            bitten_by(e0.1.marlins@, e0.1.sharks@, victims[i])
        } else {
            e0.1.marlins@
        }
    } else {
        Seq::<Marlin>::empty()
    }
}

/// The sharks that swim, with their cells' keys, cell by cell in grid order.
pub open spec fn flat_movers(cells: Seq<(HexCoord, HexCell)>, fc: HexCoord) -> Seq<(HexCoord, Shark)>
    decreases cells.len(),
{
    if cells.len() == 0 {
        Seq::empty()
    } else {
        flat_movers(cells.drop_last(), fc) + if moves_out(cells.last(), fc) {
            tagged(cells.last().0, cells.last().1.sharks@)
        } else {
            Seq::empty()
        }
    }
}

proof fn lemma_flat_movers_take(cells: Seq<(HexCoord, HexCell)>, fc: HexCoord, i: int)
    requires
        0 <= i < cells.len(),
    ensures
        flat_movers(cells.take(i + 1), fc) == flat_movers(cells.take(i), fc) + if moves_out(cells[i], fc) {
            tagged(cells[i].0, cells[i].1.sharks@)
        } else {
            Seq::empty()
        },
{
    assert(cells.take(i + 1).drop_last() =~= cells.take(i));
    assert(cells.take(i + 1).last() == cells[i]);
}

/// The sharks of cell `i` of `g0` that stay in it.
pub open spec fn staying_sharks(g0: Grid, fc: HexCoord, i: int) -> Seq<Shark> {
    if 0 <= i < g0.cells@.len() && !moves_out(g0.cells@[i], fc) {
        g0.cells@[i].1.sharks@
    } else {
        Seq::empty()
    }
}

/// Where a shark from `c` may end, with the fisherman at `fc` and hurt marlins
/// as in `g`: a dead shark stays. A living one swims to a cell it may reach:
/// one nearest the fisherman when it sees him; else, when a hurt marlin lies
/// within its smell radius, one nearest a nearest such cell.
pub open spec fn shark_step(fc: HexCoord, g: Grid, c: HexCoord, t: HexCoord, s: Shark) -> bool {
    if s.hp_spec() > 0 {
        &&& can_swim(c, t, SHARK_MOVE_RADIUS as int)
        &&& hex_dist(c, fc) <= SHARK_VISUAL_RADIUS ==> forall|u: HexCoord|
            can_swim(c, u, SHARK_MOVE_RADIUS as int) ==> hex_dist(t, fc) <= hex_dist(u, fc)
        &&& hex_dist(c, fc) > SHARK_VISUAL_RADIUS && (exists|x: HexCoord| #[trigger] hurt_at(g, x) && 1 <= hex_dist(c, x) <= SHARK_SMELL_RADIUS)
            ==> exists|x: HexCoord|
            #[trigger] nearest_scent(g, c, x) && forall|u: HexCoord|
                can_swim(c, u, SHARK_MOVE_RADIUS as int) ==> hex_dist(t, x) <= hex_dist(u, x)
    } else {
        t == c
    }
}

/// The swimming sharks of `g0`, taken cell by cell, go to `dests` by moves
/// allowed from their own cells (hurt marlins as in `g1`), and every cell of
/// `g1` holds the sharks that stayed in it followed, in order, by those sent to it.
pub open spec fn sharks_moved(g0: Grid, g1: Grid, fc: HexCoord, dests: Seq<HexCoord>) -> bool {
    let movers = flat_movers(g0.cells@, fc);
    &&& dests.len() == movers.len()
    &&& forall|a: int| 0 <= a < dests.len() ==> shark_step(fc, g1, movers[a].0, #[trigger] dests[a], movers[a].1)
    &&& forall|i: int|
        0 <= i < g1.cells@.len() ==> (#[trigger] g1.cells@[i]).1.sharks@ == staying_sharks(g0, fc, i) + arrivals(
            movers,
            dests,
            g1.cells@[i].0,
        )
}

/// Cell `k` while the sharks of the cells before `i` have left to swim.
pub open spec fn swim_pass_at(g0: Grid, ga: Grid, g: Grid, fc: HexCoord, i: int, k: int) -> bool {
    &&& g.cells@[k].0 == g0.cells@[k].0
    &&& g.cells@[k].1.marlins@ == ga.cells@[k].1.marlins@
    &&& ga.cells@[k].0 == g0.cells@[k].0
    &&& ga.cells@[k].1.marlins@.len() == g0.cells@[k].1.marlins@.len()
    &&& k < i ==> g.cells@[k].1.sharks@ == staying_sharks(g0, fc, k)
    &&& k >= i ==> g.cells@[k].1.sharks@ == g0.cells@[k].1.sharks@
}

/// Grids that agree on the keys and marlins of the cells of `g1`, where `g2`
/// may add cells without marlins, have their hurt marlins in the same places.
proof fn lemma_hurt_same(g1: Grid, g2: Grid)
    requires
        g2.cells@.len() >= g1.cells@.len(),
        forall|i: int|
            0 <= i < g2.cells@.len() ==> {
                &&& i < g1.cells@.len() ==> (#[trigger] g2.cells@[i]).0 == g1.cells@[i].0
                    && g2.cells@[i].1.marlins@ == g1.cells@[i].1.marlins@
                &&& i >= g1.cells@.len() ==> g2.cells@[i].1.marlins@.len() == 0
            },
    ensures
        forall|x: HexCoord| #[trigger] hurt_at(g1, x) == hurt_at(g2, x),
{
    assert forall|x: HexCoord| #[trigger] hurt_at(g1, x) == hurt_at(g2, x) by {
        if hurt_at(g1, x) {
            let i = choose|i: int|
                0 <= i < g1.cells@.len() && (#[trigger] g1.cells@[i]).0 == x && exists|j: int|
                    0 <= j < g1.cells@[i].1.marlins@.len() && (#[trigger] g1.cells@[i].1.marlins@[j]).hp_spec()
                        < g1.cells@[i].1.marlins@[j].initial_hp_spec();
            let j = choose|j: int|
                0 <= j < g1.cells@[i].1.marlins@.len() && (#[trigger] g1.cells@[i].1.marlins@[j]).hp_spec()
                    < g1.cells@[i].1.marlins@[j].initial_hp_spec();
            let _ = g2.cells@[i];
            assert(g2.cells@[i].1.marlins@[j] == g1.cells@[i].1.marlins@[j]);
        }
        if hurt_at(g2, x) {
            let i = choose|i: int|
                0 <= i < g2.cells@.len() && (#[trigger] g2.cells@[i]).0 == x && exists|j: int|
                    0 <= j < g2.cells@[i].1.marlins@.len() && (#[trigger] g2.cells@[i].1.marlins@[j]).hp_spec()
                        < g2.cells@[i].1.marlins@[j].initial_hp_spec();
            let j = choose|j: int|
                0 <= j < g2.cells@[i].1.marlins@.len() && (#[trigger] g2.cells@[i].1.marlins@[j]).hp_spec()
                    < g2.cells@[i].1.marlins@[j].initial_hp_spec();
            let _ = g2.cells@[i];
            assert(g1.cells@[i].1.marlins@[j] == g2.cells@[i].1.marlins@[j]);
        }
    }
}

/// A shark's step depends on the grid only through where hurt marlins are.
proof fn lemma_step_same(fc: HexCoord, g1: Grid, g2: Grid, c: HexCoord, t: HexCoord, s: Shark)
    requires
        forall|x: HexCoord| #[trigger] hurt_at(g1, x) == hurt_at(g2, x),
        shark_step(fc, g1, c, t, s),
    ensures
        shark_step(fc, g2, c, t, s),
{
    if s.hp_spec() > 0 && hex_dist(c, fc) > SHARK_VISUAL_RADIUS && (exists|x: HexCoord| #[trigger] hurt_at(g2, x) && 1 <= hex_dist(c, x) <= SHARK_SMELL_RADIUS) {
        let x0 = choose|x: HexCoord| #[trigger] hurt_at(g2, x) && 1 <= hex_dist(c, x) <= SHARK_SMELL_RADIUS;
        assert(hurt_at(g1, x0));
        let x = choose|x: HexCoord| #[trigger] nearest_scent(g1, c, x) && forall|u: HexCoord|
            can_swim(c, u, SHARK_MOVE_RADIUS as int) ==> hex_dist(t, x) <= hex_dist(u, x);
        assert(hurt_at(g1, x) == hurt_at(g2, x));
        assert forall|y: HexCoord| #[trigger] hurt_at(g2, y) && 1 <= hex_dist(c, y) implies hex_dist(c, x) <= hex_dist(c, y) by {
            assert(hurt_at(g1, y));
        }
        assert(nearest_scent(g2, c, x));
    }
}

/// A marlin as spawned: full health and not yet discovered.
pub open spec fn fresh_marlin(m: Marlin) -> bool {
    !m.discovered_spec() && m.hp_spec() == MARLIN_INITIAL_HP
}

/// A shark as spawned: full health.
pub open spec fn fresh_shark(s: Shark) -> bool {
    s.hp_spec() == SHARK_INITIAL_HP
}

/// `g1` is `g0` with creatures added: every cell of `g0` keeps its key and
/// its creatures at the front of its lists, and every creature added is
/// fresh and lies in a cell at distance `d` from `fc`.
pub open spec fn spawned_from(g0: Grid, g1: Grid, fc: HexCoord, d: int) -> bool {
    &&& g1.cells@.len() >= g0.cells@.len()
    &&& forall|i: int|
        0 <= i < g0.cells@.len() ==> {
            let (c0, cell0) = g0.cells@[i];
            let (c1, cell1) = #[trigger] g1.cells@[i];
            &&& c1 == c0
            &&& cell1.marlins@.len() >= cell0.marlins@.len()
            &&& cell1.sharks@.len() >= cell0.sharks@.len()
            &&& cell1.marlins@.subrange(0, cell0.marlins@.len() as int) == cell0.marlins@
            &&& cell1.sharks@.subrange(0, cell0.sharks@.len() as int) == cell0.sharks@
        }
    &&& forall|i: int, j: int|
        0 <= i < g1.cells@.len() && base_marlins(g0, i) <= j < g1.cells@[i].1.marlins@.len()
            ==> fresh_marlin(#[trigger] g1.cells@[i].1.marlins@[j]) && hex_dist(g1.cells@[i].0, fc) == d
    &&& forall|i: int, j: int|
        0 <= i < g1.cells@.len() && base_sharks(g0, i) <= j < g1.cells@[i].1.sharks@.len()
            ==> fresh_shark(#[trigger] g1.cells@[i].1.sharks@[j]) && hex_dist(g1.cells@[i].0, fc) == d
}

/// How many marlins cell `i` of `g` holds; none past its end.
pub open spec fn base_marlins(g: Grid, i: int) -> int {
    if 0 <= i < g.cells@.len() { g.cells@[i].1.marlins@.len() as int } else { 0 }
}

/// How many sharks cell `i` of `g` holds; none past its end.
pub open spec fn base_sharks(g: Grid, i: int) -> int {
    if 0 <= i < g.cells@.len() { g.cells@[i].1.sharks@.len() as int } else { 0 }
}

proof fn lemma_spawned_refl(g: Grid, fc: HexCoord, d: int)
    ensures
        spawned_from(g, g, fc, d),
{
    assert forall|i: int| 0 <= i < g.cells@.len() implies {
        let (c0, cell0) = g.cells@[i];
        let (c1, cell1) = #[trigger] g.cells@[i];
        &&& cell1.marlins@.subrange(0, cell0.marlins@.len() as int) == cell0.marlins@
        &&& cell1.sharks@.subrange(0, cell0.sharks@.len() as int) == cell0.sharks@
    } by {
        assert(g.cells@[i].1.marlins@.subrange(0, g.cells@[i].1.marlins@.len() as int) =~= g.cells@[i].1.marlins@);
        assert(g.cells@[i].1.sharks@.subrange(0, g.cells@[i].1.sharks@.len() as int) =~= g.cells@[i].1.sharks@);
    }
}

proof fn lemma_spawned_trans(g0: Grid, g1: Grid, g2: Grid, fc: HexCoord, d: int)
    requires
        spawned_from(g0, g1, fc, d),
        spawned_from(g1, g2, fc, d),
    ensures
        spawned_from(g0, g2, fc, d),
{
    assert forall|i: int| 0 <= i < g0.cells@.len() implies {
        let (c0, cell0) = g0.cells@[i];
        let (c1, cell1) = #[trigger] g2.cells@[i];
        &&& c1 == c0
        &&& cell1.marlins@.len() >= cell0.marlins@.len()
        &&& cell1.sharks@.len() >= cell0.sharks@.len()
        &&& cell1.marlins@.subrange(0, cell0.marlins@.len() as int) == cell0.marlins@
        &&& cell1.sharks@.subrange(0, cell0.sharks@.len() as int) == cell0.sharks@
    } by {
        let _ = g1.cells@[i];
        let _ = g2.cells@[i];
        let (a0, a1, a2) = (g0.cells@[i].1.marlins@, g1.cells@[i].1.marlins@, g2.cells@[i].1.marlins@);
        assert(a2.subrange(0, a0.len() as int) =~= a2.subrange(0, a1.len() as int).subrange(0, a0.len() as int));
        let (b0, b1, b2) = (g0.cells@[i].1.sharks@, g1.cells@[i].1.sharks@, g2.cells@[i].1.sharks@);
        assert(b2.subrange(0, b0.len() as int) =~= b2.subrange(0, b1.len() as int).subrange(0, b0.len() as int));
    }
    assert forall|i: int, j: int|
        0 <= i < g2.cells@.len() && base_marlins(g0, i) <= j < g2.cells@[i].1.marlins@.len()
            implies fresh_marlin(#[trigger] g2.cells@[i].1.marlins@[j]) && hex_dist(g2.cells@[i].0, fc) == d by {
        if j < base_marlins(g1, i) {
            let _ = g2.cells@[i];
            let a1 = g1.cells@[i].1.marlins@;
            assert(g2.cells@[i].1.marlins@.subrange(0, a1.len() as int)[j] == g2.cells@[i].1.marlins@[j]);
            assert(g1.cells@[i].1.marlins@[j] == g2.cells@[i].1.marlins@[j]);
            assert(fresh_marlin(g1.cells@[i].1.marlins@[j]));
        }
    }
    assert forall|i: int, j: int|
        0 <= i < g2.cells@.len() && base_sharks(g0, i) <= j < g2.cells@[i].1.sharks@.len()
            implies fresh_shark(#[trigger] g2.cells@[i].1.sharks@[j]) && hex_dist(g2.cells@[i].0, fc) == d by {
        if j < base_sharks(g1, i) {
            let _ = g2.cells@[i];
            let b1 = g1.cells@[i].1.sharks@;
            assert(g2.cells@[i].1.sharks@.subrange(0, b1.len() as int)[j] == g2.cells@[i].1.sharks@[j]);
            assert(g1.cells@[i].1.sharks@[j] == g2.cells@[i].1.sharks@[j]);
            assert(fresh_shark(g1.cells@[i].1.sharks@[j]));
        }
    }
}

proof fn lemma_spawned_add_marlin(g0: Grid, g1: Grid, c: HexCoord, x: Marlin, fc: HexCoord, d: int)
    requires
        Grid::extends(g0, g1, c),
        forall|i: int|
            0 <= i < g1.cells@.len() ==> (#[trigger] g1.cells@[i]).1.marlins@ == (if i < g0.cells@.len() {
                g0.cells@[i].1.marlins@
            } else {
                Seq::<Marlin>::empty()
            }) + (if g1.cells@[i].0 == c {
                seq![x]
            } else {
                Seq::<Marlin>::empty()
            }),
        forall|i: int|
            0 <= i < g1.cells@.len() ==> (#[trigger] g1.cells@[i]).1.sharks@ == (if i < g0.cells@.len() {
                g0.cells@[i].1.sharks@
            } else {
                Seq::<Shark>::empty()
            }),
        fresh_marlin(x),
        hex_dist(c, fc) == d,
    ensures
        spawned_from(g0, g1, fc, d),
{
    assert forall|i: int| 0 <= i < g0.cells@.len() implies {
        let (c0, cell0) = g0.cells@[i];
        let (c1, cell1) = #[trigger] g1.cells@[i];
        &&& c1 == c0
        &&& cell1.marlins@.len() >= cell0.marlins@.len()
        &&& cell1.sharks@.len() >= cell0.sharks@.len()
        &&& cell1.marlins@.subrange(0, cell0.marlins@.len() as int) == cell0.marlins@
        &&& cell1.sharks@.subrange(0, cell0.sharks@.len() as int) == cell0.sharks@
    } by {
        let _ = g1.cells@[i];
        assert(g1.cells@[i].1.marlins@.subrange(0, g0.cells@[i].1.marlins@.len() as int) =~= g0.cells@[i].1.marlins@);
        assert(g1.cells@[i].1.sharks@.subrange(0, g0.cells@[i].1.sharks@.len() as int) =~= g0.cells@[i].1.sharks@);
    }
    assert forall|i: int, j: int|
        0 <= i < g1.cells@.len() && base_marlins(g0, i) <= j < g1.cells@[i].1.marlins@.len()
            implies fresh_marlin(#[trigger] g1.cells@[i].1.marlins@[j]) && hex_dist(g1.cells@[i].0, fc) == d by {
        let _ = g1.cells@[i];
    }
    assert forall|i: int, j: int|
        0 <= i < g1.cells@.len() && base_sharks(g0, i) <= j < g1.cells@[i].1.sharks@.len()
            implies fresh_shark(#[trigger] g1.cells@[i].1.sharks@[j]) && hex_dist(g1.cells@[i].0, fc) == d by {
        let _ = g1.cells@[i];
    }
}

proof fn lemma_spawned_add_shark(g0: Grid, g1: Grid, c: HexCoord, x: Shark, fc: HexCoord, d: int)
    requires
        Grid::extends(g0, g1, c),
        forall|i: int|
            0 <= i < g1.cells@.len() ==> (#[trigger] g1.cells@[i]).1.sharks@ == (if i < g0.cells@.len() {
                g0.cells@[i].1.sharks@
            } else {
                Seq::<Shark>::empty()
            }) + (if g1.cells@[i].0 == c {
                seq![x]
            } else {
                Seq::<Shark>::empty()
            }),
        forall|i: int|
            0 <= i < g1.cells@.len() ==> (#[trigger] g1.cells@[i]).1.marlins@ == (if i < g0.cells@.len() {
                g0.cells@[i].1.marlins@
            } else {
                Seq::<Marlin>::empty()
            }),
        fresh_shark(x),
        hex_dist(c, fc) == d,
    ensures
        spawned_from(g0, g1, fc, d),
{
    assert forall|i: int| 0 <= i < g0.cells@.len() implies {
        let (c0, cell0) = g0.cells@[i];
        let (c1, cell1) = #[trigger] g1.cells@[i];
        &&& c1 == c0
        &&& cell1.marlins@.len() >= cell0.marlins@.len()
        &&& cell1.sharks@.len() >= cell0.sharks@.len()
        &&& cell1.marlins@.subrange(0, cell0.marlins@.len() as int) == cell0.marlins@
        &&& cell1.sharks@.subrange(0, cell0.sharks@.len() as int) == cell0.sharks@
    } by {
        let _ = g1.cells@[i];
        assert(g1.cells@[i].1.sharks@.subrange(0, g0.cells@[i].1.sharks@.len() as int) =~= g0.cells@[i].1.sharks@);
        assert(g1.cells@[i].1.marlins@.subrange(0, g0.cells@[i].1.marlins@.len() as int) =~= g0.cells@[i].1.marlins@);
    }
    assert forall|i: int, j: int|
        0 <= i < g1.cells@.len() && base_sharks(g0, i) <= j < g1.cells@[i].1.sharks@.len()
            implies fresh_shark(#[trigger] g1.cells@[i].1.sharks@[j]) && hex_dist(g1.cells@[i].0, fc) == d by {
        let _ = g1.cells@[i];
    }
    assert forall|i: int, j: int|
        0 <= i < g1.cells@.len() && base_marlins(g0, i) <= j < g1.cells@[i].1.marlins@.len()
            implies fresh_marlin(#[trigger] g1.cells@[i].1.marlins@[j]) && hex_dist(g1.cells@[i].0, fc) == d by {
        let _ = g1.cells@[i];
    }
}

/// A grid whose old cells keep their keys and sharks, and whose new cells
/// hold no shark, has the same sharks at every coordinate.
proof fn lemma_sharks_at_kept(g0: Grid, g1: Grid, c: HexCoord)
    requires
        g0.wf(),
        g1.wf(),
        g1.cells@.len() >= g0.cells@.len(),
        forall|i: int|
            0 <= i < g1.cells@.len() ==> {
                &&& i < g0.cells@.len() ==> (#[trigger] g1.cells@[i]).0 == g0.cells@[i].0
                &&& g1.cells@[i].1.sharks@ == if i < g0.cells@.len() {
                    g0.cells@[i].1.sharks@
                } else {
                    Seq::<Shark>::empty()
                }
            },
    ensures
        g1.sharks_at(c) == g0.sharks_at(c),
{
    if g0.holds(c) {
        let i = choose|i: int| 0 <= i < g0.cells@.len() && (#[trigger] g0.cells@[i]).0 == c;
        g0.lemma_found(c, i);
        let _ = g1.cells@[i];
        g1.lemma_found(c, i);
    } else if g1.holds(c) {
        let i = choose|i: int| 0 <= i < g1.cells@.len() && (#[trigger] g1.cells@[i]).0 == c;
        g1.lemma_found(c, i);
        if i < g0.cells@.len() {
            let _ = g1.cells@[i];
            assert(g0.cells@[i].0 == c);
        }
    }
}

/// Grids with the same keys, where the cells at `c` have the same sharks,
/// have the same sharks at `c`.
proof fn lemma_sharks_at_same(g0: Grid, g1: Grid, c: HexCoord)
    requires
        g0.wf(),
        g1.wf(),
        g1.cells@.len() == g0.cells@.len(),
        forall|i: int| 0 <= i < g0.cells@.len() ==> (#[trigger] g1.cells@[i]).0 == g0.cells@[i].0,
        forall|i: int|
            0 <= i < g0.cells@.len() && g0.cells@[i].0 == c ==> (#[trigger] g1.cells@[i]).1.sharks@
                == g0.cells@[i].1.sharks@,
    ensures
        g1.sharks_at(c) == g0.sharks_at(c),
{
    if g0.holds(c) {
        let i = choose|i: int| 0 <= i < g0.cells@.len() && (#[trigger] g0.cells@[i]).0 == c;
        g0.lemma_found(c, i);
        let _ = g1.cells@[i];
        g1.lemma_found(c, i);
    } else if g1.holds(c) {
        let i = choose|i: int| 0 <= i < g1.cells@.len() && (#[trigger] g1.cells@[i]).0 == c;
        let _ = g1.cells@[i];
        assert(g0.cells@[i].0 == c);
    }
}

/// The sharks `ss` after the fisherman hits shark `k` with `power`.
pub open spec fn hit_shark(ss: Seq<Shark>, k: int, power: int) -> Seq<Shark> {
    ss.update(k, ss[k].with_hp(damaged_hp(ss[k].hp_spec(), power)))
}

/// Bites never raise the hit points.
pub proof fn lemma_bitten_le(hp: int, n: nat)
    requires
        i32::MIN <= hp,
    ensures
        bitten(hp, n) <= hp,
    decreases n,
{
    if n > 0 {
        lemma_bitten_le(hp, (n - 1) as nat);
    }
}

/// Whether despawning keeps a cell: it is occupied, or within `radius` of `center`.
pub open spec fn kept_cell(e: (HexCoord, HexCell), center: HexCoord, radius: int) -> bool {
    !e.1.is_empty_spec() || hex_dist(e.0, center) <= radius
}

proof fn lemma_filter_take<A>(s: Seq<A>, j: int, p: spec_fn(A) -> bool)
    requires
        0 <= j < s.len(),
    ensures
        s.take(j + 1).filter(p) == if p(s[j]) {
            s.take(j).filter(p).push(s[j])
        } else {
            s.take(j).filter(p)
        },
{
    reveal(Seq::filter);
    assert(s.take(j + 1).drop_last() =~= s.take(j));
    assert(s.take(j + 1).last() == s[j]);
}

fn keep_alive<T: Damageable + Copy>(v: &Vec<T>) -> (r: Vec<T>)
    ensures
        r@ == survivors(v@),
        forall|k: int| 0 <= k < r@.len() ==> (#[trigger] r@[k]).hp_spec() > 0,
{
    let mut r: Vec<T> = Vec::new();
    let mut j: usize = 0;
    while j < v.len()
        invariant
            0 <= j <= v@.len(),
            r@ == v@.take(j as int).filter(|x: T| x.hp_spec() > 0),
            forall|k: int| 0 <= k < r@.len() ==> (#[trigger] r@[k]).hp_spec() > 0,
        decreases v@.len() - j,
    {
        proof {
            lemma_filter_take(v@, j as int, |x: T| x.hp_spec() > 0);
        }
        let x = v[j];
        if x.is_alive() {
            r.push(x);
        }
        j = j + 1;
    }
    assert(v@.take(v@.len() as int) =~= v@);
    r
}


/// A cell that a creature at `c` may swim to in one move of `reach`: close
/// enough, inside the world, and not the harbor.
pub open spec fn can_swim(c: HexCoord, t: HexCoord, reach: int) -> bool {
    t.in_world() && t != origin() && hex_dist(c, t) <= reach
}

/// The grid keeps a cell at `x` that holds a hurt marlin.
pub open spec fn hurt_at(grid: Grid, x: HexCoord) -> bool {
    exists|i: int|
        0 <= i < grid.cells@.len() && (#[trigger] grid.cells@[i]).0 == x && exists|j: int|
            0 <= j < grid.cells@[i].1.marlins@.len() && (#[trigger] grid.cells@[i].1.marlins@[j]).hp_spec()
                < grid.cells@[i].1.marlins@[j].initial_hp_spec()
}

/// `x` is a nearest cell with a hurt marlin, at most the smell radius away from `c`.
pub open spec fn nearest_scent(grid: Grid, c: HexCoord, x: HexCoord) -> bool {
    &&& hurt_at(grid, x)
    &&& 1 <= hex_dist(c, x) <= SHARK_SMELL_RADIUS
    &&& forall|y: HexCoord| #[trigger] hurt_at(grid, y) && 1 <= hex_dist(c, y) ==> hex_dist(c, x) <= hex_dist(c, y)
}

/// The cells that a creature at `c` may swim to.
fn move_candidates(c: HexCoord, reach: i32) -> (r: Vec<HexCoord>)
    requires
        c.in_world(),
        1 <= reach <= WORLD_RADIUS,
    ensures
        r@.len() > 0,
        forall|a: int| 0 <= a < r@.len() ==> can_swim(c, #[trigger] r@[a], reach as int),
        forall|t: HexCoord| can_swim(c, t, reach as int) ==> #[trigger] r@.contains(t),
{
    let all = c.within_radius(reach);
    let mut r: Vec<HexCoord> = Vec::new();
    let mut j: usize = 0;
    while j < all.len()
        invariant
            0 <= j <= all@.len(),
            c.in_world(),
            forall|i: int|
                0 <= i < all@.len() ==> (#[trigger] all@[i]).wf() && hex_dist(c, all@[i]) <= reach,
            forall|a: int| 0 <= a < r@.len() ==> can_swim(c, #[trigger] r@[a], reach as int),
            forall|k: int| 0 <= k < j && can_swim(c, all@[k], reach as int) ==> r@.contains(#[trigger] all@[k]),
        decreases all@.len() - j,
    {
        let t = all[j];
        if -WORLD_RADIUS <= t.q && t.q <= WORLD_RADIUS && -WORLD_RADIUS <= t.r && t.r <= WORLD_RADIUS
            && -WORLD_RADIUS <= t.s && t.s <= WORLD_RADIUS && t != HexCoord::zero() {
            proof {
                assert forall|k: int| 0 <= k < j && can_swim(c, all@[k], reach as int) implies r@.push(t).contains(#[trigger] all@[k]) by {
                    let a = choose|a: int| 0 <= a < r@.len() && r@[a] == all@[k];
                    assert(r@.push(t)[a] == all@[k]);
                }
                assert(r@.push(t)[r@.len() as int] == t);
            }
            r.push(t);
        }
        j = j + 1;
    }
    proof {
        assert forall|t: HexCoord| can_swim(c, t, reach as int) implies #[trigger] r@.contains(t) by {
            assert(all@.contains(t));
            let k = choose|k: int| 0 <= k < all@.len() && all@[k] == t;
            assert(can_swim(c, all@[k], reach as int));
        }
        let w = if c != origin() { c } else { HexCoord { q: 0, r: 1, s: -1i32 } };
        assert(can_swim(c, w, reach as int));
        assert(r@.contains(w));
    }
    r
}

/// The candidates nearest to `target`, in their order.
fn closest_to(target: HexCoord, cands: &Vec<HexCoord>) -> (r: Vec<HexCoord>)
    requires
        target.within(COORD_LIMIT as int),
        cands@.len() > 0,
        forall|k: int| 0 <= k < cands@.len() ==> (#[trigger] cands@[k]).within(COORD_LIMIT as int),
    ensures
        r@.len() > 0,
        forall|a: int| 0 <= a < r@.len() ==> cands@.contains(#[trigger] r@[a]),
        forall|a: int, k: int|
            0 <= a < r@.len() && 0 <= k < cands@.len() ==> hex_dist(#[trigger] r@[a], target)
                <= hex_dist(#[trigger] cands@[k], target),
        forall|k: int|
            0 <= k < cands@.len() && (forall|k2: int| 0 <= k2 < cands@.len() ==> hex_dist(cands@[k], target) <= hex_dist(#[trigger] cands@[k2], target))
                ==> r@.contains(#[trigger] cands@[k]),
{
    let mut best: i32 = cands[0].distance(&target);
    let mut r: Vec<HexCoord> = Vec::new();
    r.push(cands[0]);
    let mut j: usize = 1;
    assert(r@[0] == cands@[0]);
    while j < cands.len()
        invariant
            1 <= j <= cands@.len(),
            target.within(COORD_LIMIT as int),
            forall|k: int| 0 <= k < cands@.len() ==> (#[trigger] cands@[k]).within(COORD_LIMIT as int),
            r@.len() > 0,
            forall|a: int| 0 <= a < r@.len() ==> cands@.contains(#[trigger] r@[a]) && hex_dist(r@[a], target) == best,
            forall|k: int| 0 <= k < j ==> best <= hex_dist(#[trigger] cands@[k], target),
            exists|k: int| 0 <= k < j && best == hex_dist(#[trigger] cands@[k], target),
            forall|k: int| 0 <= k < j && hex_dist(cands@[k], target) == best ==> r@.contains(#[trigger] cands@[k]),
        decreases cands@.len() - j,
    {
        let t = cands[j];
        let d = t.distance(&target);
        if d < best {
            best = d;
            r = Vec::new();
            r.push(t);
            assert(r@[0] == cands@[j as int]);
        } else if d == best {
            proof {
                lemma_push_keeps(r@, t);
            }
            r.push(t);
        }
        j = j + 1;
    }
    r
}

/// Whether the cell at `x` holds a hurt marlin.
fn has_hurt_marlin(grid: &Grid, x: &HexCoord) -> (r: bool)
    requires
        grid.wf(),
    ensures
        r == hurt_at(*grid, *x),
{
    match grid.find(x) {
        Some(i) => {
            let ms = &grid.cells[i].1.marlins;
            let mut j: usize = 0;
            while j < ms.len()
                invariant
                    0 <= j <= ms@.len(),
                    i < grid.cells@.len(),
                    grid.cells@[i as int].0 == *x,
                    grid.wf(),
                    *ms == grid.cells@[i as int].1.marlins,
                    forall|l: int| 0 <= l < j ==> !((#[trigger] ms@[l]).hp_spec() < ms@[l].initial_hp_spec()),
                decreases ms@.len() - j,
            {
                if ms[j].is_hurt() {
                    assert(grid.cells@[i as int].1.marlins@[j as int] == ms@[j as int]);
                    assert(grid.cells@[i as int].1.marlins@[j as int].hp_spec()
                        < grid.cells@[i as int].1.marlins@[j as int].initial_hp_spec());
                    assert(grid.cells@[i as int].0 == *x);
                    return true;
                }
                j = j + 1;
            }
            proof {
                assert forall|i2: int| 0 <= i2 < grid.cells@.len() && (#[trigger] grid.cells@[i2]).0 == *x
                    implies !(exists|l: int|
                        0 <= l < grid.cells@[i2].1.marlins@.len() && (#[trigger] grid.cells@[i2].1.marlins@[l]).hp_spec()
                            < grid.cells@[i2].1.marlins@[l].initial_hp_spec()) by {
                    assert(i2 == i);
                }
            }
            false
        },
        None => false,
    }
}

/// Where one shark at `c` swims when it has no marlin to bite: towards the
/// fisherman when within sight; else towards a nearest cell with a hurt
/// marlin, within its smell radius; else anywhere it may swim. Ties and the
/// choice among scent sources are drawn uniformly.
fn shark_destination(grid: &Grid, fc: HexCoord, c: HexCoord, g: &mut rand::rngs::StdRng) -> (r:
    HexCoord)
    requires
        grid.wf(),
        c.in_world(),
        fc.in_world(),
    ensures
        can_swim(c, r, SHARK_MOVE_RADIUS as int),
        hex_dist(c, fc) <= SHARK_VISUAL_RADIUS ==> forall|t: HexCoord|
            can_swim(c, t, SHARK_MOVE_RADIUS as int) ==> hex_dist(r, fc) <= hex_dist(t, fc),
        hex_dist(c, fc) > SHARK_VISUAL_RADIUS && (exists|x: HexCoord| #[trigger] hurt_at(*grid, x) && 1 <= hex_dist(c, x) <= SHARK_SMELL_RADIUS)
            ==> exists|x: HexCoord|
            #[trigger] nearest_scent(*grid, c, x) && forall|t: HexCoord|
                can_swim(c, t, SHARK_MOVE_RADIUS as int) ==> hex_dist(r, x) <= hex_dist(t, x),
{
    let cands = move_candidates(c, SHARK_MOVE_RADIUS);
    if fc.distance(&c) <= SHARK_VISUAL_RADIUS {
        let closest = closest_to(fc, &cands);
        let r = pick(g, &closest);
        proof {
            let a = choose|a: int| 0 <= a < closest@.len() && closest@[a] == r;
            assert forall|t: HexCoord| can_swim(c, t, SHARK_MOVE_RADIUS as int) implies hex_dist(r, fc) <= hex_dist(t, fc) by {
                assert(cands@.contains(t));
                let k = choose|k: int| 0 <= k < cands@.len() && cands@[k] == t;
                assert(hex_dist(closest@[a], fc) <= hex_dist(cands@[k], fc));
            }
        }
        return r;
    }
    let mut radius: i32 = 1;
    while radius <= SHARK_SMELL_RADIUS
        invariant
            1 <= radius <= SHARK_SMELL_RADIUS + 1,
            grid.wf(),
            c.in_world(),
            hex_dist(c, fc) > SHARK_VISUAL_RADIUS,
            cands@.len() > 0,
            forall|a: int| 0 <= a < cands@.len() ==> can_swim(c, #[trigger] cands@[a], SHARK_MOVE_RADIUS as int),
            forall|t: HexCoord| can_swim(c, t, SHARK_MOVE_RADIUS as int) ==> #[trigger] cands@.contains(t),
            forall|y: HexCoord| #[trigger] hurt_at(*grid, y) && 1 <= hex_dist(c, y) ==> hex_dist(c, y) >= radius,
        decreases SHARK_SMELL_RADIUS + 1 - radius,
    {
        let ring = c.on_radius(radius);
        let mut sources: Vec<HexCoord> = Vec::new();
        let mut k: usize = 0;
        while k < ring.len()
            invariant
                0 <= k <= ring@.len(),
                grid.wf(),
                forall|i: int| 0 <= i < ring@.len() ==> (#[trigger] ring@[i]).wf() && hex_dist(c, ring@[i]) == radius,
                forall|a: int| 0 <= a < sources@.len() ==> hurt_at(*grid, #[trigger] sources@[a]) && hex_dist(c, sources@[a]) == radius && sources@[a].wf(),
                forall|i: int| 0 <= i < k && hurt_at(*grid, ring@[i]) ==> sources@.contains(#[trigger] ring@[i]),
            decreases ring@.len() - k,
        {
            let y = ring[k];
            if has_hurt_marlin(grid, &y) {
                proof {
                    lemma_push_keeps(sources@, y);
                }
                sources.push(y);
            }
            k = k + 1;
        }
        if sources.len() > 0 {
            let x = pick(g, &sources);
            proof {
                lemma_component_bound(c, x);
            }
            assert forall|i: int| 0 <= i < cands@.len() implies (#[trigger] cands@[i]).within(COORD_LIMIT as int) by {
                assert(can_swim(c, cands@[i], SHARK_MOVE_RADIUS as int));
            }
            let closest = closest_to(x, &cands);
            let r = pick(g, &closest);
            proof {
                assert(nearest_scent(*grid, c, x));
                let a = choose|a: int| 0 <= a < closest@.len() && closest@[a] == r;
                assert forall|t: HexCoord| can_swim(c, t, SHARK_MOVE_RADIUS as int) implies hex_dist(r, x) <= hex_dist(t, x) by {
                    assert(cands@.contains(t));
                    let k2 = choose|k2: int| 0 <= k2 < cands@.len() && cands@[k2] == t;
                    assert(hex_dist(closest@[a], x) <= hex_dist(cands@[k2], x));
                }
            }
            return r;
        }
        proof {
            assert forall|y: HexCoord| #[trigger] hurt_at(*grid, y) && 1 <= hex_dist(c, y) implies hex_dist(c, y) >= radius + 1 by {
                if hex_dist(c, y) == radius {
                    let i = choose|i: int| 0 <= i < grid.cells@.len() && (#[trigger] grid.cells@[i]).0 == y && exists|j: int|
                        0 <= j < grid.cells@[i].1.marlins@.len() && (#[trigger] grid.cells@[i].1.marlins@[j]).hp_spec()
                            < grid.cells@[i].1.marlins@[j].initial_hp_spec();
                    assert(y.wf());
                    assert(ring@.contains(y));
                    let i2 = choose|i2: int| 0 <= i2 < ring@.len() && ring@[i2] == y;
                    assert(hurt_at(*grid, ring@[i2]));
                    assert(sources@.contains(ring@[i2]));
                }
            }
        }
        radius = radius + 1;
    }
    pick(g, &cands)
}

/// Both species spawn nothing, at every distance.
pub open spec fn no_spawning(marlins: SpawnIntensity, sharks: SpawnIntensity) -> bool {
    forall|d: int| #[trigger] marlins.empty_chance(d) >= CHANCE_SCALE && sharks.empty_chance(d) >= CHANCE_SCALE
}

/// Puts each shark `movers[a].1` into the cell at `targets[a]`, in order,
/// creating cells as needed: every cell keeps its creatures, and its sharks
/// are followed by those sent to it.
fn place_sharks(grid: &mut Grid, movers: &Vec<(HexCoord, Shark)>, targets: &Vec<HexCoord>)
    requires
        old(grid).wf(),
        targets@.len() == movers@.len(),
        forall|a: int| 0 <= a < targets@.len() ==> (#[trigger] targets@[a]).in_world(),
    ensures
        final(grid).wf(),
        final(grid).cells@.len() >= old(grid).cells@.len(),
        marlin_total(final(grid).cells@) == marlin_total(old(grid).cells@),
        shark_total(final(grid).cells@) == shark_total(old(grid).cells@) + movers@.len(),
        forall|i: int|
            0 <= i < final(grid).cells@.len() ==> {
                &&& i < old(grid).cells@.len() ==> (#[trigger] final(grid).cells@[i]).0 == old(grid).cells@[i].0
                &&& final(grid).cells@[i].1.marlins@ == if i < old(grid).cells@.len() {
                    old(grid).cells@[i].1.marlins@
                } else {
                    Seq::<Marlin>::empty()
                }
                &&& final(grid).cells@[i].1.sharks@ == (if i < old(grid).cells@.len() {
                    old(grid).cells@[i].1.sharks@
                } else {
                    Seq::<Shark>::empty()
                }) + arrivals(movers@, targets@, final(grid).cells@[i].0)
            },
{
    let ghost g0 = *grid;
    let n = grid.cells.len();
    proof {
        assert forall|i2: int| 0 <= i2 < grid.cells@.len() implies (#[trigger] grid.cells@[i2]).1.sharks@
            == g0.cells@[i2].1.sharks@ + arrivals(movers@, targets@.take(0), grid.cells@[i2].0) by {
            assert(targets@.take(0) =~= Seq::<HexCoord>::empty());
            assert(g0.cells@[i2].1.sharks@ + Seq::<Shark>::empty() =~= g0.cells@[i2].1.sharks@);
        }
    }
    let mut k: usize = 0;
    while k < movers.len()
        invariant
            grid.wf(),
            0 <= k <= movers@.len(),
            n == g0.cells@.len(),
            grid.cells@.len() >= n,
            targets@.len() == movers@.len(),
            marlin_total(grid.cells@) == marlin_total(g0.cells@),
            shark_total(grid.cells@) == shark_total(g0.cells@) + k,
            forall|a: int| 0 <= a < targets@.len() ==> (#[trigger] targets@[a]).in_world(),
            forall|a: int| 0 <= a < k ==> grid.holds(#[trigger] targets@[a]),
            forall|i2: int|
                0 <= i2 < grid.cells@.len() ==> {
                    &&& i2 < n ==> (#[trigger] grid.cells@[i2]).0 == g0.cells@[i2].0
                    &&& grid.cells@[i2].1.marlins@ == if i2 < n {
                        g0.cells@[i2].1.marlins@
                    } else {
                        Seq::<Marlin>::empty()
                    }
                    &&& grid.cells@[i2].1.sharks@ == (if i2 < n {
                        g0.cells@[i2].1.sharks@
                    } else {
                        Seq::<Shark>::empty()
                    }) + arrivals(movers@, targets@.take(k as int), grid.cells@[i2].0)
                },
        decreases movers@.len() - k,
    {
        let dest = targets[k];
        let s = movers[k].1;
        let ghost prev = *grid;
        let ghost pd = targets@.take(k as int);
        grid.add_shark(dest, s);
        proof {
            assert(targets@.take(k + 1) =~= pd.push(dest));
            assert forall|a: int| 0 <= a < k + 1 implies grid.holds(#[trigger] targets@[a]) by {
                if a < k {
                    let idx = choose|idx: int| 0 <= idx < prev.cells@.len() && (#[trigger] prev.cells@[idx]).0 == targets@[a];
                    assert(grid.cells@[idx].0 == targets@[a]);
                }
            }
            assert forall|i2: int| 0 <= i2 < grid.cells@.len() implies (#[trigger] grid.cells@[i2]).1.sharks@
                == (if i2 < n {
                    g0.cells@[i2].1.sharks@
                } else {
                    Seq::<Shark>::empty()
                }) + arrivals(movers@, targets@.take(k + 1), grid.cells@[i2].0) by {
                let key = grid.cells@[i2].0;
                lemma_arrivals_push(movers@, pd, dest, key);
                let st = if i2 < n { g0.cells@[i2].1.sharks@ } else { Seq::<Shark>::empty() };
                if i2 < prev.cells@.len() {
                    assert(key == prev.cells@[i2].0);
                    if key == dest {
                        assert(prev.cells@[i2].1.sharks@ + seq![s] =~= st + arrivals(movers@, pd, key).push(s));
                    } else {
                        assert(prev.cells@[i2].1.sharks@ + Seq::<Shark>::empty() =~= prev.cells@[i2].1.sharks@);
                    }
                } else {
                    assert(key == dest);
                    assert(!prev.holds(dest));
                    assert forall|a: int| 0 <= a < pd.len() implies #[trigger] pd[a] != dest by {
                        assert(pd[a] == targets@[a]);
                        assert(prev.holds(targets@[a]));
                    }
                    lemma_arrivals_none(movers@, pd, dest);
                    assert(Seq::<Shark>::empty() + seq![s] =~= st + Seq::<Shark>::empty().push(s));
                }
            }
        }
        k = k + 1;
    }
    assert(targets@.take(movers@.len() as int) =~= targets@);
}

/// Puts `count` new creatures of one species, fresh, at the end of the cell
/// at `c`, creating the cell if there are any; nothing else changes.
fn place_spawned(grid: &mut Grid, c: HexCoord, count: usize, marlins: bool)
    requires
        old(grid).wf(),
        c.in_world(),
    ensures
        final(grid).wf(),
        old(grid).all_alive() ==> final(grid).all_alive(),
        forall|center: HexCoord, radius: int|
            old(grid).no_stale(center, radius) ==> #[trigger] final(grid).no_stale(center, radius),
        counts_sent(*old(grid), *final(grid), seq![(c, count as nat)], marlins),
        count > 0 ==> final(grid).holds(c),
        count == 0 ==> *final(grid) == *old(grid),
        spawned_from(*old(grid), *final(grid), c, 0),
        if marlins {
            marlin_total(final(grid).cells@) == marlin_total(old(grid).cells@) + count
                && shark_total(final(grid).cells@) == shark_total(old(grid).cells@)
        } else {
            shark_total(final(grid).cells@) == shark_total(old(grid).cells@) + count
                && marlin_total(final(grid).cells@) == marlin_total(old(grid).cells@)
        },
{
    let ghost g0 = *grid;
    proof {
        lemma_spawned_refl(g0, c, 0);
        assert forall|i2: int| 0 <= i2 < grid.cells@.len() implies #[trigger] count_at(g0, *grid, seq![(c, 0nat)], marlins, i2) by {
            lemma_sent_push(Seq::empty(), (c, 0nat), grid.cells@[i2].0);
            assert(seq![(c, 0nat)] =~= Seq::<(HexCoord, nat)>::empty().push((c, 0nat)));
        }
    }
    let mut k: usize = 0;
    while k < count
        invariant
            grid.wf(),
            c.in_world(),
            0 <= k <= count,
            g0 == *old(grid),
            g0.all_alive() ==> grid.all_alive(),
            forall|center: HexCoord, radius: int| g0.no_stale(center, radius) ==> #[trigger] grid.no_stale(center, radius),
            counts_sent(g0, *grid, seq![(c, k as nat)], marlins),
            k > 0 ==> grid.holds(c),
            k == 0 ==> *grid == g0,
            spawned_from(g0, *grid, c, 0),
            if marlins {
                marlin_total(grid.cells@) == marlin_total(g0.cells@) + k && shark_total(grid.cells@) == shark_total(g0.cells@)
            } else {
                shark_total(grid.cells@) == shark_total(g0.cells@) + k && marlin_total(grid.cells@) == marlin_total(g0.cells@)
            },
        decreases count - k,
    {
        let ghost prev = *grid;
        if marlins {
            let m = Marlin::new();
            grid.add_marlin(c, m);
            proof {
                lemma_spawned_add_marlin(prev, *grid, c, m, c, 0);
            }
        } else {
            let sh = Shark::new();
            grid.add_shark(c, sh);
            proof {
                lemma_spawned_add_shark(prev, *grid, c, sh, c, 0);
            }
        }
        proof {
            lemma_spawned_trans(g0, prev, *grid, c, 0);
            assert forall|i2: int| 0 <= i2 < grid.cells@.len() implies #[trigger] count_at(g0, *grid, seq![(c, (k + 1) as nat)], marlins, i2) by {
                let key = grid.cells@[i2].0;
                lemma_sent_push(Seq::empty(), (c, (k + 1) as nat), key);
                lemma_sent_push(Seq::empty(), (c, k as nat), key);
                assert(seq![(c, (k + 1) as nat)] =~= Seq::<(HexCoord, nat)>::empty().push((c, (k + 1) as nat)));
                assert(seq![(c, k as nat)] =~= Seq::<(HexCoord, nat)>::empty().push((c, k as nat)));
                if i2 < prev.cells@.len() {
                    assert(count_at(g0, prev, seq![(c, k as nat)], marlins, i2));
                    assert(key == prev.cells@[i2].0);
                } else {
                    assert(key == c);
                    assert(!prev.holds(c));
                    assert(k == 0);
                    assert(i2 >= g0.cells@.len());
                }
            }
        }
        k = k + 1;
    }
}

/// Adding at `c`, a cell at distance `d` from `fc`, adds only at distance `d` from `fc`.
proof fn lemma_spawned_at(g0: Grid, g1: Grid, c: HexCoord, fc: HexCoord, d: int)
    requires
        g1.wf(),
        c.wf(),
        spawned_from(g0, g1, c, 0),
        hex_dist(c, fc) == d,
    ensures
        spawned_from(g0, g1, fc, d),
{
    assert forall|i: int, j: int|
        0 <= i < g1.cells@.len() && base_marlins(g0, i) <= j < g1.cells@[i].1.marlins@.len()
            implies fresh_marlin(#[trigger] g1.cells@[i].1.marlins@[j]) && hex_dist(g1.cells@[i].0, fc) == d by {
        assert(g1.cells@[i].0.in_world());
        assert(0 <= i < g1.cells@.len() && base_marlins(g0, i) <= j < g1.cells@[i].1.marlins@.len());
        assert(spawned_from(g0, g1, c, 0));
        assert(fresh_marlin(g1.cells@[i].1.marlins@[j]));
        assert(hex_dist(g1.cells@[i].0, c) == 0);
        lemma_distance_zero(g1.cells@[i].0, c);
    }
    assert forall|i: int, j: int|
        0 <= i < g1.cells@.len() && base_sharks(g0, i) <= j < g1.cells@[i].1.sharks@.len()
            implies fresh_shark(#[trigger] g1.cells@[i].1.sharks@[j]) && hex_dist(g1.cells@[i].0, fc) == d by {
        assert(g1.cells@[i].0.in_world());
        assert(fresh_shark(g1.cells@[i].1.sharks@[j]) && hex_dist(g1.cells@[i].0, c) == 0);
        lemma_distance_zero(g1.cells@[i].0, c);
    }
}

/// Counting the draws so far, then one more draw placed at its own cell.
proof fn lemma_counts_step(
    g0: Grid,
    g1: Grid,
    g2: Grid,
    draws: Seq<(HexCoord, nat)>,
    c: HexCoord,
    n: nat,
    marlins: bool,
)
    requires
        g2.wf(),
        counts_sent(g0, g1, draws, marlins),
        draws_held(g1, draws),
        counts_sent(g1, g2, seq![(c, n)], marlins),
        spawned_from(g1, g2, c, 0),
        g1.cells@.len() >= g0.cells@.len(),
    ensures
        counts_sent(g0, g2, draws.push((c, n)), marlins),
{
    assert forall|i: int| 0 <= i < g2.cells@.len() implies #[trigger] count_at(g0, g2, draws.push((c, n)), marlins, i) by {
        let key = g2.cells@[i].0;
        assert(count_at(g1, g2, seq![(c, n)], marlins, i));
        lemma_sent_push(draws, (c, n), key);
        lemma_sent_push(Seq::empty(), (c, n), key);
        assert(seq![(c, n)] =~= Seq::<(HexCoord, nat)>::empty().push((c, n)));
        if i < g1.cells@.len() {
            assert(count_at(g0, g1, draws, marlins, i));
            assert(key == g1.cells@[i].0);
        } else {
            assert forall|a: int| 0 <= a < draws.len() && (#[trigger] draws[a]).0 == key implies draws[a].1 == 0 by {
                if draws[a].1 > 0 {
                    assert(g1.holds(draws[a].0));
                    let idx = choose|idx: int| 0 <= idx < g1.cells@.len() && (#[trigger] g1.cells@[idx]).0 == draws[a].0;
                    assert(g2.cells@[idx].0 == g1.cells@[idx].0);
                    assert(g2.cells@[idx].0 != g2.cells@[i].0);
                }
            }
            lemma_sent_zero(draws, key);
        }
    }
}

/// One level: a target number of marlins, the sea, the fisherman, the
/// spawn intensities of both species and the level's random source.
pub struct Level {
    target: usize,
    map: Grid,
    fisherman: Fisherman,
    marlin_spawn_probability: SpawnIntensity,
    shark_spawn_probability: SpawnIntensity,
    rng: rand::rngs::StdRng,
}

impl Level {
    pub closed spec fn target_spec(&self) -> int {
        self.target as int
    }

    pub closed spec fn map_spec(&self) -> Grid {
        self.map
    }

    pub closed spec fn fisherman_spec(&self) -> Fisherman {
        self.fisherman
    }

    pub closed spec fn marlin_intensity_spec(&self) -> SpawnIntensity {
        self.marlin_spawn_probability
    }

    pub closed spec fn shark_intensity_spec(&self) -> SpawnIntensity {
        self.shark_spawn_probability
    }

    /// The state between turns: a well-formed sea and fisherman, no dead
    /// creature, and no empty cell kept out of the fisherman's sight.
    pub open spec fn wf(&self) -> bool {
        &&& self.map_spec().wf()
        &&& self.fisherman_spec().wf()
        &&& self.map_spec().all_alive()
        &&& self.map_spec().no_stale(
            self.fisherman_spec().coord_spec(),
            FISHERMAN_VISUAL_RADIUS as int,
        )
    }

    /// How the level stands: lost once the fisherman has no hit points left,
    /// won at the harbor with at least the target caught; the score
    /// is the number caught.
    pub open spec fn outcome_spec(&self) -> Option<Result<usize, usize>> {
        let f = self.fisherman_spec();
        if f.hp_spec() <= 0 {
            Some(Err(f.captured_spec() as usize))
        } else if f.coord_spec() == origin() && f.captured_spec() >= self.target_spec() {
            Some(Ok(f.captured_spec() as usize))
        } else {
            None
        }
    }

    /// A level whose random source is fixed by `seed`.
    pub fn new(
        target: usize,
        initial_hp: i32,
        attack_power: i32,
        capture_num: u32,
        capture_den: u32,
        marlin_spawn_probability: SpawnIntensity,
        shark_spawn_probability: SpawnIntensity,
        seed: u64,
    ) -> (l: Level)
        requires
            0 < capture_den,
            capture_num <= capture_den,
        ensures
            l.wf(),
            l.target_spec() == target,
            l.map_spec().cells@.len() == 0,
            l.fisherman_spec().coord_spec() == origin(),
            l.fisherman_spec().hp_spec() == initial_hp,
            l.fisherman_spec().initial_hp_spec() == initial_hp,
            l.fisherman_spec().attack_power_spec() == attack_power,
            l.fisherman_spec().captured_spec() == 0,
            l.fisherman_spec().capture_num_spec() == capture_num,
            l.fisherman_spec().capture_den_spec() == capture_den,
            l.marlin_intensity_spec() == marlin_spawn_probability,
            l.shark_intensity_spec() == shark_spawn_probability,
    {
        Level {
            target,
            map: Grid::new(),
            fisherman: Fisherman::new(initial_hp, attack_power, capture_num, capture_den),
            marlin_spawn_probability,
            shark_spawn_probability,
            rng: seeded(seed),
        }
    }

    /// Takes every dead creature out of the sea.
    fn kill_died_creatures(&mut self)
        requires
            old(self).map.wf(),
        ensures
            final(self).map.wf(),
            final(self).map.all_alive(),
            final(self).map.cells@.len() == old(self).map.cells@.len(),
            forall|i: int|
                0 <= i < final(self).map.cells@.len() ==> {
                    let (c, cell) = #[trigger] final(self).map.cells@[i];
                    &&& c == old(self).map.cells@[i].0
                    &&& cell.marlins@ == survivors(old(self).map.cells@[i].1.marlins@)
                    &&& cell.sharks@ == survivors(old(self).map.cells@[i].1.sharks@)
                },
            final(self).fisherman == old(self).fisherman,
            final(self).target == old(self).target,
            final(self).marlin_spawn_probability == old(self).marlin_spawn_probability,
            final(self).shark_spawn_probability == old(self).shark_spawn_probability,
            marlin_total(final(self).map.cells@) <= marlin_total(old(self).map.cells@),
            shark_total(final(self).map.cells@) <= shark_total(old(self).map.cells@),
    {
        let n = self.map.cells.len();
        let mut i: usize = 0;
        while i < n
            invariant
                n == old(self).map.cells@.len(),
                self.map.cells@.len() == n,
                0 <= i <= n,
                old(self).map.wf(),
                self.fisherman == old(self).fisherman,
                self.marlin_spawn_probability == old(self).marlin_spawn_probability,
                self.shark_spawn_probability == old(self).shark_spawn_probability,
                self.target == old(self).target,
                forall|k: int| i <= k < n ==> #[trigger] self.map.cells@[k] == old(self).map.cells@[k],
                forall|k: int|
                    0 <= k < i ==> {
                        let (c, cell) = #[trigger] self.map.cells@[k];
                        &&& c == old(self).map.cells@[k].0
                        &&& cell.marlins@ == survivors(old(self).map.cells@[k].1.marlins@)
                        &&& cell.sharks@ == survivors(old(self).map.cells@[k].1.sharks@)
                        &&& cell.all_alive()
                    },
            decreases n - i,
        {
            let marlins = keep_alive(&self.map.cells[i].1.marlins);
            let sharks = keep_alive(&self.map.cells[i].1.sharks);
            self.map.cells[i].1.marlins = marlins;
            self.map.cells[i].1.sharks = sharks;
            i = i + 1;
        }
        proof {
            let fm = |cell: HexCell| cell.marlins@.len() as int;
            let fs = |cell: HexCell| cell.sharks@.len() as int;
            assert forall|k: int| 0 <= k < n implies fm(#[trigger] self.map.cells@[k].1) <= fm(old(self).map.cells@[k].1)
                && fs(self.map.cells@[k].1) <= fs(old(self).map.cells@[k].1) by {
                old(self).map.cells@[k].1.marlins@.lemma_filter_len(|x: Marlin| x.hp_spec() > 0);
                old(self).map.cells@[k].1.sharks@.lemma_filter_len(|x: Shark| x.hp_spec() > 0);
            }
            lemma_total_le(self.map.cells@, old(self).map.cells@, fm);
            lemma_total_le(self.map.cells@, old(self).map.cells@, fs);
        }
    }

    /// Drops every cell that is empty and out of the fisherman's sight.
    fn despawn_cells(&mut self)
        requires
            old(self).map.wf(),
            old(self).fisherman.wf(),
        ensures
            final(self).map.wf(),
            old(self).map.all_alive() ==> final(self).map.all_alive(),
            final(self).map.no_stale(final(self).fisherman.coord_spec(), FISHERMAN_VISUAL_RADIUS as int),
            final(self).map.cells@ == old(self).map.cells@.filter(
                |e: (HexCoord, HexCell)|
                    kept_cell(e, old(self).fisherman.coord_spec(), FISHERMAN_VISUAL_RADIUS as int),
            ),
            final(self).fisherman == old(self).fisherman,
            final(self).target == old(self).target,
            final(self).marlin_spawn_probability == old(self).marlin_spawn_probability,
            final(self).shark_spawn_probability == old(self).shark_spawn_probability,
            marlin_total(final(self).map.cells@) <= marlin_total(old(self).map.cells@),
            shark_total(final(self).map.cells@) <= shark_total(old(self).map.cells@),
    {
        let fc = self.fisherman.get_coord();
        let mut rest: Vec<(HexCoord, HexCell)> = Vec::new();
        std::mem::swap(&mut rest, &mut self.map.cells);
        let ghost orig = rest@;
        let ghost pred = |e: (HexCoord, HexCell)| kept_cell(e, fc, FISHERMAN_VISUAL_RADIUS as int);
        let ghost n = orig.len();
        let mut kept: Vec<(HexCoord, HexCell)> = Vec::new();
        while rest.len() > 0
            invariant
                n == orig.len(),
                0 <= rest@.len() <= n,
                rest@ == orig.subrange(n - rest@.len(), n as int),
                kept@ == orig.take(n - rest@.len()).filter(pred),
                forall|a: int|
                    0 <= a < kept@.len() ==> exists|k: int|
                        0 <= k < n - rest@.len() && #[trigger] orig[k] == #[trigger] kept@[a],
                forall|a: int, b: int|
                    0 <= a < b < kept@.len() ==> (#[trigger] kept@[a]).0 != (#[trigger] kept@[b]).0,
                forall|a: int|
                    0 <= a < kept@.len() ==> !(#[trigger] kept@[a]).1.is_empty_spec() || hex_dist(
                        kept@[a].0,
                        fc,
                    ) <= FISHERMAN_VISUAL_RADIUS,
                orig == old(self).map.cells@,
                old(self).map.wf(),
                fc == old(self).fisherman.coord_spec(),
                old(self).fisherman.wf(),
                self.fisherman == old(self).fisherman,
                self.target == old(self).target,
                pred == (|e: (HexCoord, HexCell)| kept_cell(e, fc, FISHERMAN_VISUAL_RADIUS as int)),
            decreases rest@.len(),
        {
            let ghost j = n - rest@.len();
            proof {
                lemma_filter_take(orig, j, pred);
            }
            let e = rest.remove(0);
            assert(e == orig[j]);
            assert(e.0.in_world());
            if !e.1.is_empty() || e.0.distance(&fc) <= FISHERMAN_VISUAL_RADIUS {
                proof {
                    assert forall|a: int| 0 <= a < kept@.len() implies (#[trigger] kept@[a]).0 != e.0 by {
                        let k = choose|k: int| 0 <= k < j && #[trigger] orig[k] == kept@[a];
                        assert(orig[k].0 != orig[j].0);
                    }
                }
                kept.push(e);
                proof {
                    assert forall|a: int| 0 <= a < kept@.len() implies exists|k: int|
                        0 <= k < j + 1 && #[trigger] orig[k] == #[trigger] kept@[a] by {
                        if a == kept@.len() - 1 {
                            assert(orig[j] == kept@[a]);
                        } else {
                            let k = choose|k: int| 0 <= k < j && #[trigger] orig[k] == kept@[a];
                            assert(orig[k] == kept@[a]);
                        }
                    }
                }
            }
            assert(rest@ =~= orig.subrange(n - rest@.len(), n as int));
        }
        assert(orig.take(n as int) =~= orig);
        self.map.cells = kept;
        proof {
            lemma_total_filter(orig, pred, |cell: HexCell| cell.marlins@.len() as int);
            lemma_total_filter(orig, pred, |cell: HexCell| cell.sharks@.len() as int);
            assert forall|a: int| 0 <= a < self.map.cells@.len() implies (#[trigger] self.map.cells@[a]).0.in_world() by {
                let k = choose|k: int| 0 <= k < n && #[trigger] orig[k] == self.map.cells@[a];
            }
            if old(self).map.all_alive() {
                assert forall|a: int| 0 <= a < self.map.cells@.len() implies (#[trigger] self.map.cells@[a]).1.all_alive() by {
                    let k = choose|k: int| 0 <= k < n && #[trigger] orig[k] == self.map.cells@[a];
                    assert(old(self).map.cells@[k].1.all_alive());
                }
            }
        }
    }

    /// Spawns creatures of one species in the cells at distance `radius` from
    /// the fisherman: a Poisson count per cell, with the intensity that the
    /// cell's distance from the harbor gives. Cells outside the world get none.
    fn spawn_on_ring(&mut self, radius: i32, marlins: bool)
        requires
            old(self).wf(),
            0 <= radius <= FISHERMAN_VISUAL_RADIUS + 1,
        ensures
            final(self).wf(),
            final(self).fisherman == old(self).fisherman,
            final(self).target == old(self).target,
            final(self).marlin_spawn_probability == old(self).marlin_spawn_probability,
            final(self).shark_spawn_probability == old(self).shark_spawn_probability,
            marlin_total(final(self).map.cells@) >= marlin_total(old(self).map.cells@),
            shark_total(final(self).map.cells@) >= shark_total(old(self).map.cells@),
            no_spawning(old(self).marlin_spawn_probability, old(self).shark_spawn_probability)
                ==> final(self).map == old(self).map,
            spawned_from(old(self).map, final(self).map, old(self).fisherman.coord_spec(), radius as int),
            exists|draws: Seq<(HexCoord, nat)>|
                #[trigger] ring_draws(
                    draws,
                    old(self).fisherman.coord_spec(),
                    radius as int,
                    species_intensity(
                        marlins,
                        old(self).marlin_spawn_probability,
                        old(self).shark_spawn_probability,
                    ),
                ) && counts_sent(old(self).map, final(self).map, draws, marlins) && draws_held(final(self).map, draws)
                    && if marlins {
                    marlin_total(final(self).map.cells@) == marlin_total(old(self).map.cells@) + draw_sum(draws)
                        && shark_total(final(self).map.cells@) == shark_total(old(self).map.cells@)
                } else {
                    shark_total(final(self).map.cells@) == shark_total(old(self).map.cells@) + draw_sum(draws)
                        && marlin_total(final(self).map.cells@) == marlin_total(old(self).map.cells@)
                },
    {
        let ghost inten = if marlins {
            old(self).marlin_spawn_probability
        } else {
            old(self).shark_spawn_probability
        };
        let ghost mut draws: Seq<(HexCoord, nat)> = Seq::empty();
        let fc = self.fisherman.get_coord();
        let ring = fc.on_radius(radius);
        proof {
            lemma_spawned_refl(self.map, fc, radius as int);
            assert forall|i2: int| 0 <= i2 < self.map.cells@.len() implies #[trigger] count_at(old(self).map, self.map, draws, marlins, i2) by {}
        }
        let mut i: usize = 0;
        while i < ring.len()
            invariant
                counts_sent(old(self).map, self.map, draws, marlins),
                draws_held(self.map, draws),
                self.wf(),
                self.fisherman == old(self).fisherman,
                self.target == old(self).target,
                self.marlin_spawn_probability == old(self).marlin_spawn_probability,
                self.shark_spawn_probability == old(self).shark_spawn_probability,
                marlin_total(self.map.cells@) >= marlin_total(old(self).map.cells@),
                shark_total(self.map.cells@) >= shark_total(old(self).map.cells@),
                no_spawning(old(self).marlin_spawn_probability, old(self).shark_spawn_probability)
                    ==> self.map == old(self).map,
                fc == self.fisherman.coord_spec(),
                0 <= i <= ring@.len(),
                forall|k: int| 0 <= k < ring@.len() ==> (#[trigger] ring@[k]).wf() && hex_dist(fc, ring@[k]) == radius,
                spawned_from(old(self).map, self.map, fc, radius as int),
                forall|c: HexCoord| c.wf() && hex_dist(fc, c) == radius ==> #[trigger] ring@.contains(c),
                forall|k: int| 0 <= k < draws.len() ==> {
                    let (c, n) = #[trigger] draws[k];
                    &&& c.in_world()
                    &&& hex_dist(fc, c) == radius
                    &&& poisson_drawn(n as int, inten.empty_chance(hex_dist(c, origin())))
                },
                forall|k: int| 0 <= k < i && (#[trigger] ring@[k]).in_world() ==> exists|a: int| 0 <= a < draws.len() && (#[trigger] draws[a]).0 == ring@[k],
                inten == if marlins { old(self).marlin_spawn_probability } else { old(self).shark_spawn_probability },
                if marlins {
                    marlin_total(self.map.cells@) == marlin_total(old(self).map.cells@) + draw_sum(draws)
                        && shark_total(self.map.cells@) == shark_total(old(self).map.cells@)
                } else {
                    shark_total(self.map.cells@) == shark_total(old(self).map.cells@) + draw_sum(draws)
                        && marlin_total(self.map.cells@) == marlin_total(old(self).map.cells@)
                },
            decreases ring@.len() - i,
        {
            let c = ring[i];
            proof {
                lemma_distance_symmetric(fc, c);
            }
            if -WORLD_RADIUS <= c.q && c.q <= WORLD_RADIUS && -WORLD_RADIUS <= c.r && c.r
                <= WORLD_RADIUS && -WORLD_RADIUS <= c.s && c.s <= WORLD_RADIUS {
                let d = c.distance(&HexCoord::zero());
                let chance = if marlins {
                    self.marlin_spawn_probability.at(d)
                } else {
                    self.shark_spawn_probability.at(d)
                };
                let count = sample_poisson(chance, &mut self.rng);
                proof {
                    if no_spawning(old(self).marlin_spawn_probability, old(self).shark_spawn_probability) {
                        let _ = old(self).marlin_spawn_probability.empty_chance(d as int);
                        assert(old(self).marlin_spawn_probability.empty_chance(d as int) >= CHANCE_SCALE
                            && old(self).shark_spawn_probability.empty_chance(d as int) >= CHANCE_SCALE);
                    }
                }
                assert(no_spawning(old(self).marlin_spawn_probability, old(self).shark_spawn_probability)
                    ==> chance >= CHANCE_SCALE);
                let ghost before_total = if marlins { marlin_total(self.map.cells@) } else { shark_total(self.map.cells@) };
                let ghost other_total = if marlins { shark_total(self.map.cells@) } else { marlin_total(self.map.cells@) };
                let ghost prev = self.map;
                place_spawned(&mut self.map, c, count, marlins);
                proof {
                    lemma_spawned_at(prev, self.map, c, fc, radius as int);
                    lemma_spawned_trans(old(self).map, prev, self.map, fc, radius as int);
                    lemma_counts_step(old(self).map, prev, self.map, draws, c, count as nat, marlins);
                    assert forall|a: int| 0 <= a < draws.len() && (#[trigger] draws[a]).1 > 0 implies self.map.holds(draws[a].0) by {
                        assert(prev.holds(draws[a].0));
                        let idx = choose|idx: int| 0 <= idx < prev.cells@.len() && (#[trigger] prev.cells@[idx]).0 == draws[a].0;
                        assert(self.map.cells@[idx].0 == draws[a].0);
                    }
                    if no_spawning(old(self).marlin_spawn_probability, old(self).shark_spawn_probability) {
                        assert(count == 0);
                    }
                }
                proof {
                    let pd = draws;
                    draws = draws.push((c, count as nat));
                    assert forall|a: int| 0 <= a < draws.len() && (#[trigger] draws[a]).1 > 0 implies self.map.holds(draws[a].0) by {
                        if a < pd.len() {
                            assert(draws[a] == pd[a]);
                        }
                    }
                    assert(draws.drop_last() =~= pd);
                    assert(draws[draws.len() - 1] == (c, count as nat));
                    assert forall|k2: int| 0 <= k2 < i + 1 && (#[trigger] ring@[k2]).in_world() implies exists|a: int| 0 <= a < draws.len() && (#[trigger] draws[a]).0 == ring@[k2] by {
                        if k2 == i {
                            assert(draws[pd.len() as int].0 == ring@[k2]);
                        } else {
                            let a = choose|a: int| 0 <= a < pd.len() && (#[trigger] pd[a]).0 == ring@[k2];
                            assert(draws[a] == pd[a]);
                        }
                    }
                    assert(inten.empty_chance(d as int) == chance);
                }
            }
            i = i + 1;
        }
        proof {
            assert forall|c: HexCoord| c.in_world() && hex_dist(fc, c) == radius implies exists|k: int| 0 <= k < draws.len() && (#[trigger] draws[k]).0 == c by {
                assert(ring@.contains(c));
                let k2 = choose|k2: int| 0 <= k2 < ring@.len() && ring@[k2] == c;
                assert(ring@[k2].in_world());
            }
            assert(inten == species_intensity(marlins, old(self).marlin_spawn_probability, old(self).shark_spawn_probability));
            assert(ring_draws(draws, fc, radius as int, inten));
        }
    }

    /// Fills the rings just beyond the fisherman's sight, up to where each
    /// species can swim into view in one turn.
    fn spawn_new_creatures(&mut self)
        requires
            old(self).wf(),
        ensures
            final(self).wf(),
            final(self).fisherman == old(self).fisherman,
            final(self).target == old(self).target,
            final(self).marlin_spawn_probability == old(self).marlin_spawn_probability,
            final(self).shark_spawn_probability == old(self).shark_spawn_probability,
            marlin_total(final(self).map.cells@) >= marlin_total(old(self).map.cells@),
            shark_total(final(self).map.cells@) >= shark_total(old(self).map.cells@),
            no_spawning(old(self).marlin_spawn_probability, old(self).shark_spawn_probability)
                ==> final(self).map == old(self).map,
            spawned_from(
                old(self).map,
                final(self).map,
                old(self).fisherman.coord_spec(),
                FISHERMAN_VISUAL_RADIUS + 1,
            ),
            exists|md: Seq<(HexCoord, nat)>, sd: Seq<(HexCoord, nat)>|
                #[trigger] ring_draws(md, old(self).fisherman.coord_spec(), FISHERMAN_VISUAL_RADIUS + 1, old(self).marlin_spawn_probability)
                    && #[trigger] ring_draws(sd, old(self).fisherman.coord_spec(), FISHERMAN_VISUAL_RADIUS + 1, old(self).shark_spawn_probability)
                    && marlin_total(final(self).map.cells@) == marlin_total(old(self).map.cells@) + draw_sum(md)
                    && shark_total(final(self).map.cells@) == shark_total(old(self).map.cells@) + draw_sum(sd)
                    && forall|i: int|
                    0 <= i < final(self).map.cells@.len() ==> #[trigger] spawn_count_at(old(self).map, final(self).map, md, sd, i),
    {
        let ghost fc = self.fisherman.coord_spec();
        let ghost mut md: Seq<(HexCoord, nat)> = Seq::empty();
        let ghost mut sd: Seq<(HexCoord, nat)> = Seq::empty();
        let ghost mid_m = marlin_total(old(self).map.cells@);
        proof {
            lemma_spawned_refl(self.map, self.fisherman.coord_spec(), FISHERMAN_VISUAL_RADIUS + 1);
        }
        let mut radius: i32 = FISHERMAN_VISUAL_RADIUS + 1;
        while radius <= FISHERMAN_VISUAL_RADIUS + MARLIN_MOVE_RADIUS
            invariant
                self.wf(),
                self.fisherman == old(self).fisherman,
                self.target == old(self).target,
                self.marlin_spawn_probability == old(self).marlin_spawn_probability,
                self.shark_spawn_probability == old(self).shark_spawn_probability,
                FISHERMAN_VISUAL_RADIUS + 1 <= radius <= FISHERMAN_VISUAL_RADIUS + MARLIN_MOVE_RADIUS + 1,
                marlin_total(self.map.cells@) >= marlin_total(old(self).map.cells@),
                shark_total(self.map.cells@) >= shark_total(old(self).map.cells@),
                no_spawning(old(self).marlin_spawn_probability, old(self).shark_spawn_probability)
                    ==> self.map == old(self).map,
                spawned_from(old(self).map, self.map, self.fisherman.coord_spec(), FISHERMAN_VISUAL_RADIUS + 1),
                fc == self.fisherman.coord_spec(),
                radius == FISHERMAN_VISUAL_RADIUS + 1 ==> marlin_total(self.map.cells@) == marlin_total(old(self).map.cells@)
                    && shark_total(self.map.cells@) == shark_total(old(self).map.cells@),
                radius > FISHERMAN_VISUAL_RADIUS + 1 ==> ring_draws(md, fc, FISHERMAN_VISUAL_RADIUS + 1, old(self).marlin_spawn_probability)
                    && marlin_total(self.map.cells@) == marlin_total(old(self).map.cells@) + draw_sum(md)
                    && shark_total(self.map.cells@) == shark_total(old(self).map.cells@)
                    && counts_sent(old(self).map, self.map, md, true) && draws_held(self.map, md),
                radius == FISHERMAN_VISUAL_RADIUS + 1 ==> self.map == old(self).map,
            decreases FISHERMAN_VISUAL_RADIUS + MARLIN_MOVE_RADIUS + 1 - radius,
        {
            let ghost prev = self.map;
            let ghost prev_self = *self;
            self.spawn_on_ring(radius, true);
            proof {
                let w = choose|w: Seq<(HexCoord, nat)>| #[trigger] ring_draws(
                    w,
                    prev_self.fisherman.coord_spec(),
                    radius as int,
                    species_intensity(true, prev_self.marlin_spawn_probability, prev_self.shark_spawn_probability),
                ) && counts_sent(prev_self.map, self.map, w, true) && draws_held(self.map, w)
                    && marlin_total(self.map.cells@) == marlin_total(prev_self.map.cells@) + draw_sum(w)
                    && shark_total(self.map.cells@) == shark_total(prev_self.map.cells@);
                md = w;
            }
            proof {
                lemma_spawned_trans(old(self).map, prev, self.map, self.fisherman.coord_spec(), FISHERMAN_VISUAL_RADIUS + 1);
            }
            radius = radius + 1;
        }
        let ghost g1 = self.map;
        proof {
            lemma_spawned_refl(self.map, fc, FISHERMAN_VISUAL_RADIUS + 1);
        }
        let ghost after_m = marlin_total(self.map.cells@);
        let ghost base_s = shark_total(self.map.cells@);
        let mut radius: i32 = FISHERMAN_VISUAL_RADIUS + 1;
        while radius <= FISHERMAN_VISUAL_RADIUS + SHARK_MOVE_RADIUS
            invariant
                self.wf(),
                self.fisherman == old(self).fisherman,
                self.target == old(self).target,
                self.marlin_spawn_probability == old(self).marlin_spawn_probability,
                self.shark_spawn_probability == old(self).shark_spawn_probability,
                FISHERMAN_VISUAL_RADIUS + 1 <= radius <= FISHERMAN_VISUAL_RADIUS + SHARK_MOVE_RADIUS + 1,
                marlin_total(self.map.cells@) >= marlin_total(old(self).map.cells@),
                shark_total(self.map.cells@) >= shark_total(old(self).map.cells@),
                no_spawning(old(self).marlin_spawn_probability, old(self).shark_spawn_probability)
                    ==> self.map == old(self).map,
                spawned_from(old(self).map, self.map, self.fisherman.coord_spec(), FISHERMAN_VISUAL_RADIUS + 1),
                fc == self.fisherman.coord_spec(),
                ring_draws(md, fc, FISHERMAN_VISUAL_RADIUS + 1, old(self).marlin_spawn_probability),
                after_m == marlin_total(old(self).map.cells@) + draw_sum(md),
                base_s == shark_total(old(self).map.cells@),
                radius == FISHERMAN_VISUAL_RADIUS + 1 ==> marlin_total(self.map.cells@) == after_m
                    && shark_total(self.map.cells@) == base_s,
                radius > FISHERMAN_VISUAL_RADIUS + 1 ==> ring_draws(sd, fc, FISHERMAN_VISUAL_RADIUS + 1, old(self).shark_spawn_probability)
                    && shark_total(self.map.cells@) == base_s + draw_sum(sd)
                    && marlin_total(self.map.cells@) == after_m
                    && counts_sent(g1, self.map, sd, false),
                radius == FISHERMAN_VISUAL_RADIUS + 1 ==> self.map == g1,
                spawned_from(g1, self.map, fc, FISHERMAN_VISUAL_RADIUS + 1),
                counts_sent(old(self).map, g1, md, true),
                draws_held(g1, md),
                g1.wf(),
                spawned_from(old(self).map, g1, fc, FISHERMAN_VISUAL_RADIUS + 1),
            decreases FISHERMAN_VISUAL_RADIUS + SHARK_MOVE_RADIUS + 1 - radius,
        {
            let ghost prev = self.map;
            let ghost prev_self = *self;
            self.spawn_on_ring(radius, false);
            proof {
                let w = choose|w: Seq<(HexCoord, nat)>| #[trigger] ring_draws(
                    w,
                    prev_self.fisherman.coord_spec(),
                    radius as int,
                    species_intensity(false, prev_self.marlin_spawn_probability, prev_self.shark_spawn_probability),
                ) && counts_sent(prev_self.map, self.map, w, false) && draws_held(self.map, w)
                    && shark_total(self.map.cells@) == shark_total(prev_self.map.cells@) + draw_sum(w)
                    && marlin_total(self.map.cells@) == marlin_total(prev_self.map.cells@);
                sd = w;
                lemma_spawned_trans(g1, prev, self.map, fc, FISHERMAN_VISUAL_RADIUS + 1);
            }
            proof {
                lemma_spawned_trans(old(self).map, prev, self.map, self.fisherman.coord_spec(), FISHERMAN_VISUAL_RADIUS + 1);
            }
            radius = radius + 1;
        }
        assert(ring_draws(md, fc, FISHERMAN_VISUAL_RADIUS + 1, old(self).marlin_spawn_probability)
            && ring_draws(sd, fc, FISHERMAN_VISUAL_RADIUS + 1, old(self).shark_spawn_probability));
        proof {
            let g2 = self.map;
            assert forall|i: int| 0 <= i < g2.cells@.len() implies #[trigger] spawn_count_at(old(self).map, g2, md, sd, i) by {
                assert(count_at(g1, g2, sd, false, i));
                let key = g2.cells@[i].0;
                if i < g1.cells@.len() {
                    assert(count_at(old(self).map, g1, md, true, i));
                    assert(g2.cells@[i].0 == g1.cells@[i].0);
                } else {
                    assert forall|a: int| 0 <= a < md.len() && (#[trigger] md[a]).0 == key implies md[a].1 == 0 by {
                        if md[a].1 > 0 {
                            assert(g1.holds(md[a].0));
                            let idx = choose|idx: int| 0 <= idx < g1.cells@.len() && (#[trigger] g1.cells@[idx]).0 == md[a].0;
                            assert(g2.cells@[idx].0 == g1.cells@[idx].0);
                            assert(g2.cells@[idx].0 != g2.cells@[i].0);
                        }
                    }
                    lemma_sent_zero(md, key);
                }
            }
        }
    }

    /// Every living marlin swims to a cell drawn uniformly among those it may
    /// reach; a dead one stays where it is until the cleanup. Cells keep their
    /// keys and sharks. Exactly: the marlins of the grid, taken cell by cell,
    /// each get a destination allowed from their own cell, and every cell then
    /// holds, in order, the marlins sent to it.
    fn action_marlins(&mut self)
        requires
            old(self).map.wf(),
        ensures
            final(self).map.wf(),
            marlin_total(final(self).map.cells@) == marlin_total(old(self).map.cells@),
            shark_total(final(self).map.cells@) == shark_total(old(self).map.cells@),
            final(self).map.cells@.len() >= old(self).map.cells@.len(),
            forall|i: int|
                0 <= i < final(self).map.cells@.len() ==> {
                    &&& i < old(self).map.cells@.len() ==> (#[trigger] final(self).map.cells@[i]).0
                        == old(self).map.cells@[i].0
                    &&& final(self).map.cells@[i].1.sharks@ == if i < old(self).map.cells@.len() {
                        old(self).map.cells@[i].1.sharks@
                    } else {
                        Seq::<Shark>::empty()
                    }
                },
            exists|dests: Seq<HexCoord>| #[trigger] marlins_moved(old(self).map, final(self).map, dests),
            final(self).fisherman == old(self).fisherman,
            final(self).target == old(self).target,
            final(self).marlin_spawn_probability == old(self).marlin_spawn_probability,
            final(self).shark_spawn_probability == old(self).shark_spawn_probability,
    {
        let ghost m0 = marlin_total(old(self).map.cells@);
        let ghost s0 = shark_total(old(self).map.cells@);
        let ghost g0 = old(self).map;
        let mut movers: Vec<(HexCoord, Marlin)> = Vec::new();
        let n = self.map.cells.len();
        let mut i: usize = 0;
        while i < n
            invariant
                self.map.wf(),
                n == self.map.cells@.len(),
                n == g0.cells@.len(),
                g0 == old(self).map,
                0 <= i <= n,
                self.fisherman == old(self).fisherman,
                self.target == old(self).target,
                self.marlin_spawn_probability == old(self).marlin_spawn_probability,
                self.shark_spawn_probability == old(self).shark_spawn_probability,
                forall|a: int| 0 <= a < movers@.len() ==> (#[trigger] movers@[a]).0.in_world(),
                movers@ == flat_marlins(g0.cells@.take(i as int)),
                marlin_total(self.map.cells@) + movers@.len() == m0,
                shark_total(self.map.cells@) == s0,
                forall|k: int|
                    0 <= k < n ==> {
                        &&& (#[trigger] self.map.cells@[k]).0 == g0.cells@[k].0
                        &&& self.map.cells@[k].1.sharks@ == g0.cells@[k].1.sharks@
                        &&& k < i ==> self.map.cells@[k].1.marlins@.len() == 0
                        &&& k >= i ==> self.map.cells@[k].1.marlins@ == g0.cells@[k].1.marlins@
                    },
            decreases n - i,
        {
            let c = self.map.cells[i].0;
            let mut ms: Vec<Marlin> = Vec::new();
            let ghost before = self.map.cells@;
            std::mem::swap(&mut ms, &mut self.map.cells[i].1.marlins);
            assert forall|k: int| 0 <= k < n implies (#[trigger] self.map.cells@[k]).0 == before[k].0 by {}
            proof {
                assert(self.map.cells@ =~= before.update(i as int, self.map.cells@[i as int]));
                lemma_total_update(before, i as int, self.map.cells@[i as int], |cell: HexCell| cell.marlins@.len() as int);
                lemma_total_update(before, i as int, self.map.cells@[i as int], |cell: HexCell| cell.sharks@.len() as int);
            }
            assert(ms@ == g0.cells@[i as int].1.marlins@);
            let ghost start = movers@;
            let mut j: usize = 0;
            while j < ms.len()
                invariant
                    0 <= j <= ms@.len(),
                    0 <= i < n,
                    n == g0.cells@.len(),
                    c.in_world(),
                    c == g0.cells@[i as int].0,
                    ms@ == g0.cells@[i as int].1.marlins@,
                    forall|a: int| 0 <= a < movers@.len() ==> (#[trigger] movers@[a]).0.in_world(),
                    movers@ == start + tagged(c, ms@).take(j as int),
                decreases ms@.len() - j,
            {
                movers.push((c, ms[j]));
                j = j + 1;
                assert(movers@ =~= start + tagged(c, ms@).take(j as int));
            }
            proof {
                assert(tagged(c, ms@).take(ms@.len() as int) =~= tagged(c, ms@));
                lemma_flat_marlins_take(g0.cells@, i as int);
            }
            i = i + 1;
        }
        assert(g0.cells@.take(n as int) =~= g0.cells@);
        let ghost mut dests: Seq<HexCoord> = Seq::empty();
        assert forall|i2: int| 0 <= i2 < self.map.cells@.len() implies (#[trigger] self.map.cells@[i2]).1.marlins@
            == arrivals(movers@, dests, self.map.cells@[i2].0) by {
            assert(self.map.cells@[i2].1.marlins@ =~= Seq::<Marlin>::empty());
        }
        let mut k: usize = 0;
        while k < movers.len()
            invariant
                self.map.wf(),
                0 <= k <= movers@.len(),
                dests.len() == k,
                movers@ == flat_marlins(g0.cells@),
                n == g0.cells@.len(),
                g0 == old(self).map,
                self.map.cells@.len() >= n,
                marlin_total(self.map.cells@) + (movers@.len() - k) == m0,
                shark_total(self.map.cells@) == s0,
                self.fisherman == old(self).fisherman,
                self.target == old(self).target,
                self.marlin_spawn_probability == old(self).marlin_spawn_probability,
                self.shark_spawn_probability == old(self).shark_spawn_probability,
                forall|a: int| 0 <= a < movers@.len() ==> (#[trigger] movers@[a]).0.in_world(),
                forall|a: int|
                    0 <= a < k ==> marlin_step(movers@[a].0, #[trigger] dests[a], movers@[a].1)
                        && self.map.holds(dests[a]),
                forall|i2: int|
                    0 <= i2 < self.map.cells@.len() ==> {
                        &&& i2 < n ==> (#[trigger] self.map.cells@[i2]).0 == g0.cells@[i2].0
                        &&& self.map.cells@[i2].1.sharks@ == if i2 < n {
                            g0.cells@[i2].1.sharks@
                        } else {
                            Seq::<Shark>::empty()
                        }
                        &&& self.map.cells@[i2].1.marlins@ == arrivals(movers@, dests, self.map.cells@[i2].0)
                    },
            decreases movers@.len() - k,
        {
            let (c, m) = movers[k];
            assert(movers@[k as int].0.in_world());
            let dest = if m.is_alive() {
                let cands = move_candidates(c, MARLIN_MOVE_RADIUS);
                let dest = pick(&mut self.rng, &cands);
                proof {
                    let a = choose|a: int| 0 <= a < cands@.len() && cands@[a] == dest;
                    assert(can_swim(c, cands@[a], MARLIN_MOVE_RADIUS as int));
                }
                dest
            } else {
                c
            };
            assert(marlin_step(c, dest, m));
            let ghost prev = self.map;
            let ghost pd = dests;
            self.map.add_marlin(dest, m);
            proof {
                dests = dests.push(dest);
                assert forall|a: int| 0 <= a < k + 1 implies marlin_step(movers@[a].0, #[trigger] dests[a], movers@[a].1)
                    && self.map.holds(dests[a]) by {
                    if a < k {
                        assert(dests[a] == pd[a]);
                        let idx = choose|idx: int| 0 <= idx < prev.cells@.len() && (#[trigger] prev.cells@[idx]).0 == pd[a];
                        assert(self.map.cells@[idx].0 == pd[a]);
                    }
                }
                assert forall|i2: int| 0 <= i2 < self.map.cells@.len() implies (#[trigger] self.map.cells@[i2]).1.marlins@
                    == arrivals(movers@, dests, self.map.cells@[i2].0) by {
                    let key = self.map.cells@[i2].0;
                    lemma_arrivals_push(movers@, pd, dest, key);
                    if i2 < prev.cells@.len() {
                        assert(key == prev.cells@[i2].0);
                        if key == dest {
                            assert(prev.cells@[i2].1.marlins@ + seq![m] =~= prev.cells@[i2].1.marlins@.push(m));
                        } else {
                            assert(prev.cells@[i2].1.marlins@ + Seq::<Marlin>::empty() =~= prev.cells@[i2].1.marlins@);
                        }
                    } else {
                        assert(key == dest);
                        assert(!prev.holds(dest));
                        assert forall|a: int| 0 <= a < pd.len() implies #[trigger] pd[a] != dest by {
                            assert(prev.holds(pd[a]));
                        }
                        lemma_arrivals_none(movers@, pd, dest);
                        assert(Seq::<Marlin>::empty() + seq![m] =~= Seq::<Marlin>::empty().push(m));
                    }
                }
            }
            k = k + 1;
        }
        assert(marlins_moved(old(self).map, self.map, dests));
    }

    /// Sharks in the fisherman's cell bite the fisherman and stay. Elsewhere,
    /// sharks that share a cell with marlins each bite one of them, drawn
    /// uniformly, and stay. Then the others swim as `shark_destination`
    /// decides, each on its own, with hurt marlins as the bites left them. A
    /// dead shark neither bites nor swims.
    #[verifier::rlimit(100)]
    fn action_sharks(&mut self)
        requires
            old(self).map.wf(),
            old(self).fisherman.wf(),
        ensures
            final(self).map.wf(),
            final(self).fisherman.wf(),
            final(self).fisherman.coord_spec() == old(self).fisherman.coord_spec(),
            final(self).fisherman.captured_spec() == old(self).fisherman.captured_spec(),
            final(self).fisherman.capture_num_spec() == old(self).fisherman.capture_num_spec(),
            final(self).fisherman.capture_den_spec() == old(self).fisherman.capture_den_spec(),
            final(self).fisherman.initial_hp_spec() == old(self).fisherman.initial_hp_spec(),
            final(self).fisherman.hp_spec() == bitten(
                old(self).fisherman.hp_spec(),
                survivors(old(self).map.sharks_at(old(self).fisherman.coord_spec())).len(),
            ),
            marlin_total(final(self).map.cells@) == marlin_total(old(self).map.cells@),
            shark_total(final(self).map.cells@) == shark_total(old(self).map.cells@),
            final(self).target == old(self).target,
            final(self).marlin_spawn_probability == old(self).marlin_spawn_probability,
            final(self).shark_spawn_probability == old(self).shark_spawn_probability,
            final(self).map.cells@.len() >= old(self).map.cells@.len(),
            forall|i: int|
                0 <= i < old(self).map.cells@.len() ==> (#[trigger] final(self).map.cells@[i]).0
                    == old(self).map.cells@[i].0,
            exists|victims: Seq<Seq<int>>|
                #[trigger] sharks_bit(old(self).map, final(self).map, old(self).fisherman.coord_spec(), victims),
            exists|dests: Seq<HexCoord>|
                #[trigger] sharks_moved(old(self).map, final(self).map, old(self).fisherman.coord_spec(), dests),
    {
        let ghost g0 = old(self).map;
        let ghost m0 = marlin_total(old(self).map.cells@);
        let ghost s0 = shark_total(old(self).map.cells@);
        let ghost hp0 = old(self).fisherman.hp_spec();
        let fc = self.fisherman.get_coord();
        match self.map.find(&fc) {
            Some(i) => {
                proof {
                    self.map.lemma_found(fc, i as int);
                }
                let ns = self.map.cells[i].1.sharks.len();
                let ghost ss = self.map.cells@[i as int].1.sharks@;
                let mut j: usize = 0;
                while j < ns
                    invariant
                        0 <= j <= ns,
                        ss == self.map.cells@[i as int].1.sharks@,
                        self.fisherman.hp_spec() == bitten(
                            hp0,
                            ss.take(j as int).filter(|x: Shark| x.hp_spec() > 0).len(),
                        ),
                        i < self.map.cells@.len(),
                        self.map == old(self).map,
                        ns == self.map.cells@[i as int].1.sharks@.len(),
                        self.fisherman.wf(),
                        self.fisherman.coord_spec() == fc,
                        fc == old(self).fisherman.coord_spec(),
                        self.fisherman.captured_spec() == old(self).fisherman.captured_spec(),
                        self.fisherman.initial_hp_spec() == old(self).fisherman.initial_hp_spec(),
                        self.fisherman.capture_num_spec() == old(self).fisherman.capture_num_spec(),
                        self.fisherman.capture_den_spec() == old(self).fisherman.capture_den_spec(),
                        self.target == old(self).target,
                        self.marlin_spawn_probability == old(self).marlin_spawn_probability,
                        self.shark_spawn_probability == old(self).shark_spawn_probability,
                    decreases ns - j,
                {
                    let s = self.map.cells[i].1.sharks[j];
                    proof {
                        lemma_filter_take(ss, j as int, |x: Shark| x.hp_spec() > 0);
                    }
                    if s.is_alive() {
                        let ghost before = self.fisherman;
                        s.attack(&mut self.fisherman);
                        proof {
                            before.lemma_with_hp(self.fisherman.hp_spec());
                        }
                    }
                    j = j + 1;
                }
                assert(ss.take(ns as int) =~= ss);
            },
            None => {
                assert(Seq::<Shark>::empty().filter(|x: Shark| x.hp_spec() > 0) =~= Seq::<Shark>::empty()) by {
                    reveal(Seq::filter);
                }
            },
        }
        assert(self.fisherman.hp_spec() == bitten(
            old(self).fisherman.hp_spec(),
            survivors(old(self).map.sharks_at(old(self).fisherman.coord_spec())).len(),
        ));
        let ghost hp1 = self.fisherman.hp_spec();
        let n = self.map.cells.len();
        let ghost mut victims: Seq<Seq<int>> = Seq::empty();
        let mut i: usize = 0;
        while i < n
            invariant
                self.map.wf(),
                n == self.map.cells@.len(),
                0 <= i <= n,
                self.fisherman.wf(),
                self.fisherman.coord_spec() == fc,
                fc == old(self).fisherman.coord_spec(),
                self.fisherman.captured_spec() == old(self).fisherman.captured_spec(),
                self.fisherman.initial_hp_spec() == old(self).fisherman.initial_hp_spec(),
                self.fisherman.capture_num_spec() == old(self).fisherman.capture_num_spec(),
                self.fisherman.capture_den_spec() == old(self).fisherman.capture_den_spec(),
                self.fisherman.hp_spec() == hp1,
                self.target == old(self).target,
                self.marlin_spawn_probability == old(self).marlin_spawn_probability,
                self.shark_spawn_probability == old(self).shark_spawn_probability,
                g0 == old(self).map,
                n == g0.cells@.len(),
                marlin_total(self.map.cells@) == m0,
                shark_total(self.map.cells@) == s0,
                victims.len() == i,
                forall|k: int|
                    0 <= k < n ==> {
                        let e0 = g0.cells@[k];
                        &&& (#[trigger] self.map.cells@[k]).0 == e0.0
                        &&& self.map.cells@[k].1.sharks@ == e0.1.sharks@
                        &&& k < i ==> victims_fit(victims[k], e0.1.sharks@, e0.1.marlins@.len() as int)
                        &&& k < i ==> self.map.cells@[k].1.marlins@ == if bite_cell(e0, fc) {
                            bitten_by(e0.1.marlins@, e0.1.sharks@, victims[k])
                        } else {
                            e0.1.marlins@
                        }
                        &&& k >= i ==> self.map.cells@[k].1.marlins@ == e0.1.marlins@
                    },
            decreases n - i,
        {
            let c = self.map.cells[i].0;
            let ghost ss = g0.cells@[i as int].1.sharks@;
            let ghost ms0 = g0.cells@[i as int].1.marlins@;
            let ghost mut vs: Seq<int> = Seq::empty();
            if c != fc && self.map.cells[i].1.marlins.len() > 0 {
                let ns = self.map.cells[i].1.sharks.len();
                let nm = self.map.cells[i].1.marlins.len();
                let ghost at_start = self.map.cells@;
                let mut j: usize = 0;
                while j < ns
                    invariant
                        0 <= j <= ns,
                        i < n,
                        self.map.wf(),
                        n == self.map.cells@.len(),
                        at_start.len() == n,
                        self.fisherman.wf(),
                        self.fisherman.coord_spec() == fc,
                        fc == old(self).fisherman.coord_spec(),
                        self.fisherman.captured_spec() == old(self).fisherman.captured_spec(),
                        self.fisherman.initial_hp_spec() == old(self).fisherman.initial_hp_spec(),
                        self.fisherman.capture_num_spec() == old(self).fisherman.capture_num_spec(),
                        self.fisherman.capture_den_spec() == old(self).fisherman.capture_den_spec(),
                        self.fisherman.hp_spec() == hp1,
                        self.target == old(self).target,
                        self.marlin_spawn_probability == old(self).marlin_spawn_probability,
                        self.shark_spawn_probability == old(self).shark_spawn_probability,
                        g0 == old(self).map,
                        n == g0.cells@.len(),
                        marlin_total(self.map.cells@) == m0,
                        shark_total(self.map.cells@) == s0,
                        ss == g0.cells@[i as int].1.sharks@,
                        ms0 == g0.cells@[i as int].1.marlins@,
                        ns == ss.len(),
                        nm == ms0.len(),
                        nm > 0,
                        forall|k2: int| 0 <= k2 < n && k2 != i ==> #[trigger] self.map.cells@[k2] == at_start[k2],
                        self.map.cells@[i as int].0 == at_start[i as int].0,
                        self.map.cells@[i as int].1.sharks@ == ss,
                        vs.len() == j,
                        forall|l: int| 0 <= l < j ==> 0 <= #[trigger] vs[l] < nm,
                        self.map.cells@[i as int].1.marlins@ == bitten_by(ms0, ss.take(j as int), vs),
                    decreases ns - j,
                {
                    let s = self.map.cells[i].1.sharks[j];
                    proof {
                        lemma_bitten_by_len(ms0, ss.take(j as int), vs);
                        assert(ss.take(j + 1).drop_last() =~= ss.take(j as int));
                        assert(ss.take(j + 1).last() == s);
                    }
                    if s.is_alive() {
                        let k = draw_index(&mut self.rng, nm);
                        let ghost before = self.map.cells@;
                        let ghost mk = self.map.cells@[i as int].1.marlins@[k as int];
                        s.attack(&mut self.map.cells[i].1.marlins[k]);
                        assert forall|k2: int| 0 <= k2 < n implies (#[trigger] self.map.cells@[k2]).0 == before[k2].0 by {}
                        proof {
                            assert(self.map.cells@ =~= before.update(i as int, self.map.cells@[i as int]));
                            lemma_total_update(before, i as int, self.map.cells@[i as int], |cell: HexCell| cell.marlins@.len() as int);
                            lemma_total_update(before, i as int, self.map.cells@[i as int], |cell: HexCell| cell.sharks@.len() as int);
                            let pv = vs;
                            vs = vs.push(k as int);
                            assert(vs.drop_last() =~= pv);
                            assert(self.map.cells@[i as int].1.marlins@[k as int] == bite(mk));
                            assert(self.map.cells@[i as int].1.marlins@ =~= before[i as int].1.marlins@.update(k as int, bite(mk)));
                        }
                    } else {
                        proof {
                            let pv = vs;
                            vs = vs.push(0);
                            assert(vs.drop_last() =~= pv);
                        }
                    }
                    j = j + 1;
                }
                assert(ss.take(ns as int) =~= ss);
            } else {
                proof {
                    vs = Seq::new(ss.len(), |l: int| 0);
                }
            }
            proof {
                let pv = victims;
                victims = victims.push(vs);
                assert forall|k: int| 0 <= k < i implies #[trigger] victims[k] == pv[k] by {}
                assert(victims[i as int] == vs);
            }
            i = i + 1;
        }
        let ghost ga = self.map;
        proof {
            assert forall|k: int| 0 <= k < n implies (#[trigger] ga.cells@[k]).1.marlins@.len() == g0.cells@[k].1.marlins@.len() by {
                lemma_bitten_by_len(g0.cells@[k].1.marlins@, g0.cells@[k].1.sharks@, victims[k]);
            }
            assert forall|k: int| 0 <= k < ga.cells@.len() implies #[trigger] bit_at(g0, ga, fc, victims, k) by {
                let _ = self.map.cells@[k];
            }
            assert(sharks_bit(g0, ga, fc, victims));
        }
        assert forall|k: int| 0 <= k < n implies #[trigger] swim_pass_at(g0, ga, self.map, fc, 0, k) by {
            let _ = self.map.cells@[k];
        }
        let mut movers: Vec<(HexCoord, Shark)> = Vec::new();
        let mut targets: Vec<HexCoord> = Vec::new();
        let mut i: usize = 0;
        while i < n
            invariant
                self.map.wf(),
                n == self.map.cells@.len(),
                0 <= i <= n,
                self.fisherman.wf(),
                self.fisherman.coord_spec() == fc,
                fc == old(self).fisherman.coord_spec(),
                self.fisherman.captured_spec() == old(self).fisherman.captured_spec(),
                self.fisherman.initial_hp_spec() == old(self).fisherman.initial_hp_spec(),
                self.fisherman.capture_num_spec() == old(self).fisherman.capture_num_spec(),
                self.fisherman.capture_den_spec() == old(self).fisherman.capture_den_spec(),
                self.fisherman.hp_spec() == hp1,
                self.target == old(self).target,
                self.marlin_spawn_probability == old(self).marlin_spawn_probability,
                self.shark_spawn_probability == old(self).shark_spawn_probability,
                g0 == old(self).map,
                n == g0.cells@.len(),
                marlin_total(self.map.cells@) == m0,
                shark_total(self.map.cells@) + movers@.len() == s0,
                ga.cells@.len() == n,
                sharks_bit(g0, ga, fc, victims),
                targets@.len() == movers@.len(),
                movers@ == flat_movers(g0.cells@.take(i as int), fc),
                forall|a: int| 0 <= a < movers@.len() ==> (#[trigger] movers@[a]).0.in_world(),
                forall|a: int| 0 <= a < targets@.len() ==> (#[trigger] targets@[a]).in_world(),
                forall|a: int| 0 <= a < targets@.len() ==> shark_step(fc, ga, movers@[a].0, #[trigger] targets@[a], movers@[a].1),
                forall|k: int| 0 <= k < n ==> #[trigger] swim_pass_at(g0, ga, self.map, fc, i as int, k),
            decreases n - i,
        {
            let c = self.map.cells[i].0;
            let ghost before_b = self.map;
            proof {
                lemma_flat_movers_take(g0.cells@, fc, i as int);
                assert(swim_pass_at(g0, ga, self.map, fc, i as int, i as int));
            }
            if c != fc && self.map.cells[i].1.marlins.len() == 0 {
                let mut sharks: Vec<Shark> = Vec::new();
                let ghost before = self.map.cells@;
                std::mem::swap(&mut sharks, &mut self.map.cells[i].1.sharks);
                assert forall|k2: int| 0 <= k2 < n implies (#[trigger] self.map.cells@[k2]).0 == before[k2].0 by {}
                proof {
                    assert(self.map.cells@ =~= before.update(i as int, self.map.cells@[i as int]));
                    lemma_total_update(before, i as int, self.map.cells@[i as int], |cell: HexCell| cell.marlins@.len() as int);
                    lemma_total_update(before, i as int, self.map.cells@[i as int], |cell: HexCell| cell.sharks@.len() as int);
                    assert forall|k: int| 0 <= k < self.map.cells@.len() implies ({
                        &&& k < ga.cells@.len() ==> (#[trigger] self.map.cells@[k]).0 == ga.cells@[k].0
                            && self.map.cells@[k].1.marlins@ == ga.cells@[k].1.marlins@
                        &&& k >= ga.cells@.len() ==> self.map.cells@[k].1.marlins@.len() == 0
                    }) by {
                        assert(swim_pass_at(g0, ga, before_b, fc, i as int, k));
                        if k != i {
                            assert(self.map.cells@[k] == before_b.cells@[k]);
                        }
                    }
                    lemma_hurt_same(ga, self.map);
                }
                assert(c.in_world());
                let ghost after_swap = self.map.cells@;
                let ghost start = movers@;
                let mut j: usize = 0;
                while j < sharks.len()
                    invariant
                        0 <= j <= sharks@.len(),
                        0 <= i < n,
                        self.map.wf(),
                        n == self.map.cells@.len(),
                        self.fisherman.wf(),
                        self.fisherman.coord_spec() == fc,
                        fc == old(self).fisherman.coord_spec(),
                        self.fisherman.captured_spec() == old(self).fisherman.captured_spec(),
                        self.fisherman.initial_hp_spec() == old(self).fisherman.initial_hp_spec(),
                        self.fisherman.capture_num_spec() == old(self).fisherman.capture_num_spec(),
                        self.fisherman.capture_den_spec() == old(self).fisherman.capture_den_spec(),
                        self.fisherman.hp_spec() == hp1,
                        self.target == old(self).target,
                        self.marlin_spawn_probability == old(self).marlin_spawn_probability,
                        self.shark_spawn_probability == old(self).shark_spawn_probability,
                        g0 == old(self).map,
                        n == g0.cells@.len(),
                        self.map.cells@ == after_swap,
                        marlin_total(self.map.cells@) == m0,
                        shark_total(self.map.cells@) + start.len() + sharks@.len() == s0,
                        ga.cells@.len() == n,
                        sharks_bit(g0, ga, fc, victims),
                sharks_bit(g0, ga, fc, victims),
                        forall|x: HexCoord| #[trigger] hurt_at(ga, x) == hurt_at(self.map, x),
                        c.in_world(),
                        fc.in_world(),
                        c == g0.cells@[i as int].0,
                        sharks@ == g0.cells@[i as int].1.sharks@,
                        movers@ == start + tagged(c, sharks@).take(j as int),
                        targets@.len() == movers@.len(),
                        forall|a: int| 0 <= a < movers@.len() ==> (#[trigger] movers@[a]).0.in_world(),
                        forall|a: int| 0 <= a < targets@.len() ==> (#[trigger] targets@[a]).in_world(),
                        forall|a: int| 0 <= a < targets@.len() ==> shark_step(fc, ga, movers@[a].0, #[trigger] targets@[a], movers@[a].1),
                    decreases sharks@.len() - j,
                {
                    let sh = sharks[j];
                    let dest = if sh.is_alive() {
                        shark_destination(&self.map, fc, c, &mut self.rng)
                    } else {
                        c
                    };
                    proof {
                        assert(shark_step(fc, self.map, c, dest, sh));
                        lemma_step_same(fc, self.map, ga, c, dest, sh);
                    }
                    movers.push((c, sh));
                    targets.push(dest);
                    j = j + 1;
                    assert(movers@ =~= start + tagged(c, sharks@).take(j as int));
                }
                assert(tagged(c, sharks@).take(sharks@.len() as int) =~= tagged(c, sharks@));
                assert(self.map.cells@[i as int].1.sharks@ =~= Seq::<Shark>::empty());
                assert(moves_out(g0.cells@[i as int], fc));
                assert(staying_sharks(g0, fc, i as int) =~= Seq::<Shark>::empty());
            } else {
                assert(movers@ + Seq::<(HexCoord, Shark)>::empty() =~= movers@);
                assert(!moves_out(g0.cells@[i as int], fc));
            }
            assert(self.map.cells@[i as int].1.sharks@ == staying_sharks(g0, fc, i as int));
            assert(self.map.cells@[i as int].1.marlins@ == ga.cells@[i as int].1.marlins@);
            assert forall|k: int| 0 <= k < n implies #[trigger] swim_pass_at(g0, ga, self.map, fc, i + 1, k) by {
                assert(swim_pass_at(g0, ga, before_b, fc, i as int, k));
                if k != i {
                    assert(self.map.cells@[k] == before_b.cells@[k]);
                }
            }
            i = i + 1;
        }
        assert(g0.cells@.take(n as int) =~= g0.cells@);
        let ghost gb = self.map;
        place_sharks(&mut self.map, &movers, &targets);
        proof {
            assert forall|i2: int| 0 <= i2 < self.map.cells@.len() implies {
                &&& i2 < n ==> (#[trigger] self.map.cells@[i2]).0 == g0.cells@[i2].0
                &&& self.map.cells@[i2].1.marlins@ == if i2 < n {
                    ga.cells@[i2].1.marlins@
                } else {
                    Seq::<Marlin>::empty()
                }
                &&& self.map.cells@[i2].1.sharks@ == staying_sharks(g0, fc, i2) + arrivals(
                    movers@,
                    targets@,
                    self.map.cells@[i2].0,
                )
            } by {
                if i2 < n {
                    assert(swim_pass_at(g0, ga, gb, fc, n as int, i2));
                }
            }
        }
        proof {
            lemma_hurt_same(ga, self.map);
            assert forall|a: int| 0 <= a < targets@.len() implies shark_step(fc, self.map, movers@[a].0, #[trigger] targets@[a], movers@[a].1) by {
                lemma_step_same(fc, ga, self.map, movers@[a].0, targets@[a], movers@[a].1);
            }
            assert(sharks_moved(g0, self.map, fc, targets@));
            assert forall|k: int| 0 <= k < self.map.cells@.len() implies #[trigger] bit_at(g0, self.map, fc, victims, k) by {
                let _ = self.map.cells@[k];
                if k < n {
                    assert(bit_at(g0, ga, fc, victims, k));
                }
            }
            assert(sharks_bit(g0, self.map, fc, victims));
        }
    }

    /// Whether the level takes `input`: a move must be a unit step or none
    /// that stays in the world; nothing but moving is done at the harbor; a
    /// capture aims at the fisherman's cell or a neighbour; an attack needs a
    /// shark in the named slot of a kept cell.
    pub open spec fn accepts(&self, input: UserAction) -> bool {
        let f = self.fisherman_spec();
        match input {
            UserAction::Move(d) => step_ok(f.coord_spec(), d),
            UserAction::Discover => f.coord_spec() != origin(),
            UserAction::Capture(d) => f.coord_spec() != origin() && unit_step(d),
            UserAction::Attack(c, k) => f.coord_spec() != origin() && exists|i: int|
                0 <= i < self.map_spec().cells@.len() && (#[trigger] self.map_spec().cells@[i]).0 == c
                    && k < self.map_spec().cells@[i].1.sharks@.len(),
        }
    }

    /// What one call of `advance` does: `l0` before, `l1` after, `r` returned.
    /// A rejected action changes nothing; an accepted one keeps the level
    /// well-formed, returns the outcome, moves the fisherman only on a move,
    /// never lowers the number caught nor raises the fisherman's hit points,
    /// and creates no creature when the level ends or nothing spawns; when it
    /// goes on, the creatures added are fresh and lie just beyond sight.
    pub open spec fn turn(
        l0: Level,
        input: UserAction,
        r: Result<Option<Result<usize, usize>>, ()>,
        l1: Level,
    ) -> bool {
        let (f0, f1) = (l0.fisherman_spec(), l1.fisherman_spec());
        &&& l1.wf()
        &&& r.is_err() == !l0.accepts(input)
        &&& r.is_err() ==> l1 == l0
        &&& match r {
            Ok(o) => o == l1.outcome_spec(),
            Err(_) => true,
        }
        &&& l1.target_spec() == l0.target_spec()
        &&& l1.marlin_intensity_spec() == l0.marlin_intensity_spec()
        &&& l1.shark_intensity_spec() == l0.shark_intensity_spec()
        &&& f1.capture_num_spec() == f0.capture_num_spec()
        &&& f1.capture_den_spec() == f0.capture_den_spec()
        &&& f1.initial_hp_spec() == f0.initial_hp_spec()
        &&& r.is_ok() ==> f1.coord_spec() == match input {
            UserAction::Move(d) => shift(f0.coord_spec(), d),
            _ => f0.coord_spec(),
        }
        &&& r.is_ok() && !(input is Capture) ==> f1.captured_spec() == f0.captured_spec()
        &&& f1.captured_spec() >= f0.captured_spec()
        &&& f1.hp_spec() <= f0.hp_spec()
        &&& match input {
            UserAction::Attack(c, k) => r.is_ok() && c == f1.coord_spec() ==> f1.hp_spec() == bitten(
                f0.hp_spec(),
                survivors(hit_shark(l0.map_spec().sharks_at(c), k as int, f0.attack_power_spec())).len(),
            ),
            _ => true,
        }
        &&& r.is_ok() && match input {
            UserAction::Attack(c, _) => c != f1.coord_spec(),
            _ => true,
        } ==> f1.hp_spec() == bitten(
            f0.hp_spec(),
            survivors(l0.map_spec().sharks_at(f1.coord_spec())).len(),
        )
        &&& shark_total(l0.map_spec().cells@) == 0 ==> f1.hp_spec() == f0.hp_spec()
        &&& r == Ok::<Option<Result<usize, usize>>, ()>(None) ==> exists|g: Grid|
            marlin_total(g.cells@) <= marlin_total(l0.map_spec().cells@) && shark_total(g.cells@)
                <= shark_total(l0.map_spec().cells@) && #[trigger] spawned_from(
                g,
                l1.map_spec(),
                f1.coord_spec(),
                FISHERMAN_VISUAL_RADIUS + 1,
            )
        &&& (r matches Ok(Some(_)) || no_spawning(l0.marlin_intensity_spec(), l0.shark_intensity_spec()))
            ==> marlin_total(l1.map_spec().cells@) <= marlin_total(l0.map_spec().cells@)
            && shark_total(l1.map_spec().cells@) <= shark_total(l0.map_spec().cells@)
    }

    /// Plays one turn. A rejected action changes nothing and gives `Err`.
    /// Otherwise the action is committed, marlins then sharks act, the dead
    /// are removed, stale cells dropped, and the level ends if the fisherman
    /// is dead (`Err` with the score) or home with enough marlins (`Ok` with
    /// the score); if it goes on, new creatures spawn beyond sight.
    pub fn advance(&mut self, input: UserAction) -> (r: Result<Option<Result<usize, usize>>, ()>)
        requires
            old(self).wf(),
        ensures
            Level::turn(*old(self), input, r, *final(self)),
    {
        let ghost l0 = *self;
        let ok = match input {
            UserAction::Move(dir) => self.fisherman.operate(dir),
            UserAction::Discover => self.fisherman.discover_marlins(&mut self.map),
            UserAction::Capture(dir) => {
                if dir.q < -1 || dir.q > 1 || dir.r < -1 || dir.r > 1 || dir.s < -1 || dir.s > 1
                    || dir.q + dir.r + dir.s != 0 {
                    false
                } else {
                    let target = self.fisherman.get_coord().add(dir);
                    self.fisherman.capture_marlins(target, &mut self.map, &mut self.rng)
                }
            },
            UserAction::Attack(coord, index) => {
                match self.map.find(&coord) {
                    Some(i) => {
                        if index < self.map.cells[i].1.sharks.len() && self.fisherman.get_coord()
                            != HexCoord::zero() {
                            let ghost before = self.map.cells@;
                            let ok = self.fisherman.attack_shark(
                                Some(&mut self.map.cells[i].1.sharks[index]),
                            );
                            assert forall|k2: int| 0 <= k2 < self.map.cells@.len() implies (#[trigger] self.map.cells@[k2]).0 == before[k2].0 by {}
                            proof {
                                assert(self.map.cells@ =~= before.update(i as int, self.map.cells@[i as int]));
                                lemma_total_update(before, i as int, self.map.cells@[i as int], |cell: HexCell| cell.marlins@.len() as int);
                                lemma_total_update(before, i as int, self.map.cells@[i as int], |cell: HexCell| cell.sharks@.len() as int);
                            }
                            ok
                        } else {
                            self.fisherman.attack_shark(None)
                        }
                    },
                    None => self.fisherman.attack_shark(None),
                }
            },
        };
        if !ok {
            return Err(());
        }
        let ghost hp1 = self.fisherman.hp_spec();
        assert(hp1 == l0.fisherman.hp_spec());
        assert(shark_total(self.map.cells@) == shark_total(l0.map.cells@));
        let ghost before_marlins = self.map;
        proof {
            let fc = self.fisherman.coord_spec();
            if match input {
                UserAction::Attack(c, _) => c != fc,
                _ => true,
            } {
                assert forall|i: int| 0 <= i < l0.map.cells@.len() implies (#[trigger] self.map.cells@[i]).0 == l0.map.cells@[i].0 by {}
                assert forall|i: int|
                    0 <= i < l0.map.cells@.len() && l0.map.cells@[i].0 == fc implies (#[trigger] self.map.cells@[i]).1.sharks@
                        == l0.map.cells@[i].1.sharks@ by {}
                lemma_sharks_at_same(l0.map, self.map, fc);
            }
            if let UserAction::Attack(c, k) = input {
                if c == fc {
                    let i = choose|i: int| 0 <= i < l0.map.cells@.len() && (#[trigger] l0.map.cells@[i]).0 == c
                        && k < l0.map.cells@[i].1.sharks@.len();
                    l0.map.lemma_found(c, i);
                    let _ = self.map.cells@[i];
                    self.map.lemma_found(c, i);
                    assert(self.map.cells@[i].1.sharks@ =~= hit_shark(l0.map.cells@[i].1.sharks@, k as int, l0.fisherman.attack_power_spec()));
                }
            }
        }
        self.action_marlins();
        let ghost before_sharks = *self;
        self.action_sharks();
        proof {
            lemma_sharks_at_kept(before_marlins, before_sharks.map, self.fisherman.coord_spec());
            let fc = before_sharks.fisherman.coord_spec();
            let n = survivors(before_sharks.map.sharks_at(fc)).len();
            lemma_bitten_le(hp1, n);
            if shark_total(l0.map.cells@) == 0 {
                lemma_total_zero(before_sharks.map.cells@, |cell: HexCell| cell.sharks@.len() as int);
                if before_sharks.map.holds(fc) {
                    let i = choose|i: int| 0 <= i < before_sharks.map.cells@.len() && (#[trigger] before_sharks.map.cells@[i]).0 == fc;
                    before_sharks.map.lemma_found(fc, i);
                    assert(before_sharks.map.cells@[i].1.sharks@.len() == 0);
                }
                before_sharks.map.sharks_at(fc).lemma_filter_len(|x: Shark| x.hp_spec() > 0);
                assert(n == 0);
            }
        }
        self.kill_died_creatures();
        self.despawn_cells();
        if let Some(ans) = self.test_game_over() {
            return Ok(Some(ans));
        }
        let ghost despawned = self.map;
        self.spawn_new_creatures();
        assert(spawned_from(despawned, self.map, self.fisherman.coord_spec(), FISHERMAN_VISUAL_RADIUS + 1));
        Ok(None)
    }

    /// Puts a new marlin at the end of the cell at `c`, for setting up a
    /// position; nothing else changes.
    pub fn place_marlin(&mut self, c: HexCoord)
        requires
            old(self).wf(),
            c.in_world(),
        ensures
            final(self).wf(),
            final(self).fisherman_spec() == old(self).fisherman_spec(),
            final(self).target_spec() == old(self).target_spec(),
            final(self).map_spec().marlins_at(c).len() == old(self).map_spec().marlins_at(c).len() + 1,
            spawned_from(old(self).map_spec(), final(self).map_spec(), c, 0),
            marlin_total(final(self).map_spec().cells@) == marlin_total(old(self).map_spec().cells@) + 1,
            shark_total(final(self).map_spec().cells@) == shark_total(old(self).map_spec().cells@),
    {
        let m = Marlin::new();
        self.map.add_marlin(c, m);
        proof {
            lemma_spawned_add_marlin(old(self).map, self.map, c, m, c, 0);
            if old(self).map.holds(c) {
                let i = choose|i: int| 0 <= i < old(self).map.cells@.len() && (#[trigger] old(self).map.cells@[i]).0 == c;
                old(self).map.lemma_found(c, i);
                self.map.lemma_found(c, i);
            } else {
                self.map.lemma_found(c, old(self).map.cells@.len() as int);
            }
        }
    }

    /// Puts a new shark at the end of the cell at `c`, for setting up a
    /// position; nothing else changes.
    pub fn place_shark(&mut self, c: HexCoord)
        requires
            old(self).wf(),
            c.in_world(),
        ensures
            final(self).wf(),
            final(self).fisherman_spec() == old(self).fisherman_spec(),
            final(self).target_spec() == old(self).target_spec(),
            final(self).map_spec().sharks_at(c).len() == old(self).map_spec().sharks_at(c).len() + 1,
            spawned_from(old(self).map_spec(), final(self).map_spec(), c, 0),
            shark_total(final(self).map_spec().cells@) == shark_total(old(self).map_spec().cells@) + 1,
            marlin_total(final(self).map_spec().cells@) == marlin_total(old(self).map_spec().cells@),
    {
        let sh = Shark::new();
        self.map.add_shark(c, sh);
        proof {
            lemma_spawned_add_shark(old(self).map, self.map, c, sh, c, 0);
            if old(self).map.holds(c) {
                let i = choose|i: int| 0 <= i < old(self).map.cells@.len() && (#[trigger] old(self).map.cells@[i]).0 == c;
                old(self).map.lemma_found(c, i);
                self.map.lemma_found(c, i);
            } else {
                self.map.lemma_found(c, old(self).map.cells@.len() as int);
            }
        }
    }

    fn test_game_over(&self) -> (r: Option<Result<usize, usize>>)
        ensures
            r == self.outcome_spec(),
    {
        if !self.fisherman.is_alive() {
            return Some(Err(self.fisherman.get_captured_marlins()));
        }
        if self.fisherman.get_coord() == HexCoord::zero() && self.fisherman.get_captured_marlins()
            >= self.target {
            return Some(Ok(self.fisherman.get_captured_marlins()));
        }
        None
    }

    pub fn get_fisherman(&self) -> (f: Fisherman)
        ensures
            f == self.fisherman_spec(),
    {
        self.fisherman
    }

    pub fn get_map(&self) -> (m: Grid)
        ensures
            m.same_as(self.map_spec()),
    {
        self.map.duplicate()
    }
}

/// What one action did to the game.
#[derive(Debug, Clone, Copy, PartialEq, Eq, Structural)]
pub enum InputResult {
    InvalidInput,
    Continuing,
    LevelPassed,
    LevelFailed,
    GamePassed,
}

/// The kind of an action in its flat encoding.
#[derive(Debug, Clone, Copy, PartialEq, Eq, Structural)]
pub enum WasmUserActionType {
    Move,
    Discover,
    Capture,
    Attack,
}

impl Default for WasmUserActionType {
    fn default() -> (t: WasmUserActionType)
        ensures
            t == WasmUserActionType::Move,
    {
        WasmUserActionType::Move
    }
}

/// An action as a kind and two parameters: a direction, written as the
/// coordinate it leads to from the harbor, or an attacked cell; and a shark slot.
#[derive(Debug, Clone, Copy)]
pub struct WasmUserAction {
    pub action_type: WasmUserActionType,
    pub param_0: HexCoord,
    pub param_1: usize,
}

impl Default for WasmUserAction {
    fn default() -> (a: WasmUserAction)
        ensures
            a.action_type == WasmUserActionType::Move,
            a.param_0 == origin(),
            a.param_1 == 0,
    {
        WasmUserAction {
            action_type: WasmUserActionType::Move,
            param_0: HexCoord::zero(),
            param_1: 0,
        }
    }
}

/// The direction that leads from the harbor to `c`.
pub open spec fn dir_of(c: HexCoord) -> HexDir {
    HexDir { q: c.q, r: c.r, s: c.s }
}

/// The coordinate that `d` leads to from the harbor.
pub open spec fn coord_of(d: HexDir) -> HexCoord {
    HexCoord { q: d.q, r: d.r, s: d.s }
}

/// The action that a flat encoding stands for.
pub open spec fn action_of(a: WasmUserAction) -> UserAction {
    match a.action_type {
        WasmUserActionType::Move => UserAction::Move(dir_of(a.param_0)),
        WasmUserActionType::Discover => UserAction::Discover,
        WasmUserActionType::Capture => UserAction::Capture(dir_of(a.param_0)),
        WasmUserActionType::Attack => UserAction::Attack(a.param_0, a.param_1),
    }
}

/// The flat encoding of an action; unused parameters are zero.
pub open spec fn encoding_of(a: UserAction) -> WasmUserAction {
    match a {
        UserAction::Move(d) => WasmUserAction {
            action_type: WasmUserActionType::Move,
            param_0: coord_of(d),
            param_1: 0,
        },
        UserAction::Discover => WasmUserAction {
            action_type: WasmUserActionType::Discover,
            param_0: origin(),
            param_1: 0,
        },
        UserAction::Capture(d) => WasmUserAction {
            action_type: WasmUserActionType::Capture,
            param_0: coord_of(d),
            param_1: 0,
        },
        UserAction::Attack(c, k) => WasmUserAction {
            action_type: WasmUserActionType::Attack,
            param_0: c,
            param_1: k,
        },
    }
}

impl WasmUserAction {
    pub fn move_action(dir: HexCoord) -> (a: WasmUserAction)
        ensures
            action_of(a) == UserAction::Move(dir_of(dir)),
    {
        WasmUserAction { action_type: WasmUserActionType::Move, param_0: dir, param_1: 0 }
    }

    pub fn discover_action() -> (a: WasmUserAction)
        ensures
            action_of(a) == UserAction::Discover,
    {
        WasmUserAction {
            action_type: WasmUserActionType::Discover,
            param_0: HexCoord::zero(),
            param_1: 0,
        }
    }

    pub fn capture_action(dir: HexCoord) -> (a: WasmUserAction)
        ensures
            action_of(a) == UserAction::Capture(dir_of(dir)),
    {
        WasmUserAction { action_type: WasmUserActionType::Capture, param_0: dir, param_1: 0 }
    }

    pub fn attack_action(coord: HexCoord, index: usize) -> (a: WasmUserAction)
        ensures
            action_of(a) == UserAction::Attack(coord, index),
    {
        WasmUserAction { action_type: WasmUserActionType::Attack, param_0: coord, param_1: index }
    }
}

impl From<WasmUserAction> for UserAction {
    fn from(a: WasmUserAction) -> (r: UserAction) {
        let zero = HexCoord::zero();
        match a.action_type {
            WasmUserActionType::Move => UserAction::Move(a.param_0.sub(zero)),
            WasmUserActionType::Discover => UserAction::Discover,
            WasmUserActionType::Capture => UserAction::Capture(a.param_0.sub(zero)),
            WasmUserActionType::Attack => UserAction::Attack(a.param_0, a.param_1),
        }
    }
}

impl vstd::std_specs::convert::FromSpecImpl<WasmUserAction> for UserAction {
    open spec fn obeys_from_spec() -> bool {
        true
    }

    open spec fn from_spec(a: WasmUserAction) -> UserAction {
        action_of(a)
    }
}

impl From<UserAction> for WasmUserAction {
    fn from(a: UserAction) -> (r: WasmUserAction) {
        let zero = HexCoord::zero();
        match a {
            UserAction::Move(d) => WasmUserAction {
                action_type: WasmUserActionType::Move,
                param_0: zero.add(d),
                param_1: 0,
            },
            UserAction::Discover => WasmUserAction {
                action_type: WasmUserActionType::Discover,
                param_0: zero,
                param_1: 0,
            },
            UserAction::Capture(d) => WasmUserAction {
                action_type: WasmUserActionType::Capture,
                param_0: zero.add(d),
                param_1: 0,
            },
            UserAction::Attack(c, k) => WasmUserAction {
                action_type: WasmUserActionType::Attack,
                param_0: c,
                param_1: k,
            },
        }
    }
}

impl vstd::std_specs::convert::FromSpecImpl<UserAction> for WasmUserAction {
    open spec fn obeys_from_spec() -> bool {
        true
    }

    open spec fn from_spec(a: UserAction) -> WasmUserAction {
        encoding_of(a)
    }
}

/// The number of discovered marlins among `ms`.
pub open spec fn discovered_count(ms: Seq<Marlin>) -> nat {
    ms.filter(|m: Marlin| m.discovered_spec()).len()
}

/// A run of levels played in order, with the score of the last level that ended.
pub struct Game {
    current_level: Level,
    current_score: usize,
    levels: Vec<Level>,
}

impl Game {
    pub closed spec fn level_spec(&self) -> Level {
        self.current_level
    }

    /// The levels still to come, in order.
    pub closed spec fn rest_spec(&self) -> Seq<Level> {
        self.levels@
    }

    pub closed spec fn score_spec(&self) -> int {
        self.current_score as int
    }

    pub open spec fn wf(&self) -> bool {
        &&& self.level_spec().wf()
        &&& forall|i: int| 0 <= i < self.rest_spec().len() ==> (#[trigger] self.rest_spec()[i]).wf()
    }

    /// A game that starts with `first` and goes on with `rest`.
    pub fn from_levels(first: Level, rest: Vec<Level>) -> (g: Game)
        requires
            first.wf(),
            forall|i: int| 0 <= i < rest@.len() ==> (#[trigger] rest@[i]).wf(),
        ensures
            g.wf(),
            g.level_spec() == first,
            g.rest_spec() == rest@,
            g.score_spec() == 0,
    {
        Game { current_level: first, current_score: 0, levels: rest }
    }

    /// The standard run of three levels, each with a fresh random seed.
    pub fn new() -> (g: Game)
        ensures
            g.wf(),
            g.rest_spec().len() == 2,
            g.score_spec() == 0,
            g.level_spec().target_spec() == 5,
            g.rest_spec()[0].target_spec() == 10,
            g.rest_spec()[1].target_spec() == 15,
            g.level_spec().fisherman_spec().coord_spec() == origin(),
            g.level_spec().fisherman_spec().hp_spec() == 5,
            g.level_spec().map_spec().cells@.len() == 0,
    {
        let level0 = Level::new(
            5,
            5,
            1,
            1,
            2,
            SpawnIntensity::constant(740_818),
            SpawnIntensity::constant(1_000_000),
            fresh_seed(),
        );
        let level1 = Level::new(
            10,
            5,
            1,
            1,
            2,
            SpawnIntensity::constant(740_818),
            SpawnIntensity::constant(951_229),
            fresh_seed(),
        );
        let level2 = Level::new(
            15,
            5,
            1,
            1,
            2,
            SpawnIntensity::constant(778_801),
            SpawnIntensity::constant(932_394),
            fresh_seed(),
        );
        let mut rest: Vec<Level> = Vec::new();
        rest.push(level1);
        rest.push(level2);
        Game::from_levels(level0, rest)
    }

    pub fn get_fisherman(&self) -> (f: Fisherman)
        ensures
            f == self.level_spec().fisherman_spec(),
    {
        self.current_level.fisherman
    }

    pub fn get_target(&self) -> (t: usize)
        ensures
            t == self.level_spec().target_spec(),
    {
        self.current_level.target
    }

    pub fn get_shark_num_at(&self, coord: &HexCoord) -> (n: usize)
        requires
            self.wf(),
        ensures
            n == self.level_spec().map_spec().sharks_at(*coord).len(),
    {
        match self.current_level.map.find(coord) {
            Some(i) => {
                proof {
                    self.current_level.map.lemma_found(*coord, i as int);
                }
                self.current_level.map.cells[i].1.sharks.len()
            },
            None => 0,
        }
    }

    pub fn get_discovered_marlin_num_at(&self, coord: &HexCoord) -> (n: usize)
        requires
            self.wf(),
        ensures
            n == discovered_count(self.level_spec().map_spec().marlins_at(*coord)),
    {
        match self.current_level.map.find(coord) {
            Some(i) => {
                proof {
                    self.current_level.map.lemma_found(*coord, i as int);
                }
                let ms = &self.current_level.map.cells[i].1.marlins;
                let mut n: usize = 0;
                let mut j: usize = 0;
                while j < ms.len()
                    invariant
                        0 <= j <= ms@.len(),
                        n == ms@.take(j as int).filter(|m: Marlin| m.discovered_spec()).len(),
                        n <= j,
                    decreases ms@.len() - j,
                {
                    proof {
                        lemma_filter_take(ms@, j as int, |m: Marlin| m.discovered_spec());
                    }
                    if ms[j].is_discovered() {
                        n = n + 1;
                    }
                    j = j + 1;
                }
                assert(ms@.take(ms@.len() as int) =~= ms@);
                n
            },
            None => {
                assert(Seq::<Marlin>::empty().filter(|m: Marlin| m.discovered_spec()) =~= Seq::<Marlin>::empty()) by {
                    reveal(Seq::filter);
                }
                0
            },
        }
    }

    pub fn get_nth_shark_at(&self, coord: &HexCoord, n: usize) -> (s: Option<Shark>)
        requires
            self.wf(),
        ensures
            s == if n < self.level_spec().map_spec().sharks_at(*coord).len() {
                Some(self.level_spec().map_spec().sharks_at(*coord)[n as int])
            } else {
                None
            },
    {
        match self.current_level.map.find(coord) {
            Some(i) => {
                proof {
                    self.current_level.map.lemma_found(*coord, i as int);
                }
                if n < self.current_level.map.cells[i].1.sharks.len() {
                    Some(self.current_level.map.cells[i].1.sharks[n])
                } else {
                    None
                }
            },
            None => None,
        }
    }

    pub fn get_score(&self) -> (s: usize)
        ensures
            s == self.score_spec(),
    {
        self.current_score
    }

    /// How the game takes the result `res` of a turn that left the current
    /// level as `l1`: it goes on, or records the score and then stays on the
    /// failed level, moves to the next level, or ends after the last one.
    pub open spec fn settles(
        g0: Game,
        r: InputResult,
        res: Option<Result<usize, usize>>,
        l1: Level,
        g1: Game,
    ) -> bool {
        match r {
            InputResult::Continuing => res is None && g1.level_spec() == l1 && g1.rest_spec()
                == g0.rest_spec() && g1.score_spec() == g0.score_spec(),
            InputResult::LevelFailed => res == Some(Err::<usize, usize>(g1.score_spec() as usize))
                && g1.level_spec() == l1 && g1.rest_spec() == g0.rest_spec(),
            InputResult::LevelPassed => res == Some(Ok::<usize, usize>(g1.score_spec() as usize))
                && g0.rest_spec().len() > 0 && g1.level_spec() == g0.rest_spec()[0]
                && g1.rest_spec() == g0.rest_spec().drop_first(),
            InputResult::GamePassed => res == Some(Ok::<usize, usize>(g1.score_spec() as usize))
                && g0.rest_spec().len() == 0 && g1.level_spec() == l1 && g1.rest_spec()
                == g0.rest_spec(),
            InputResult::InvalidInput => false,
        }
    }

    /// Plays one action on the current level. A rejected action changes
    /// nothing. When the level ends its score is recorded; a passed level
    /// gives way to the next one, or ends the game after the last.
    pub fn handle_action(&mut self, input: WasmUserAction) -> (r: InputResult)
        requires
            old(self).wf(),
        ensures
            final(self).wf(),
            (r == InputResult::InvalidInput) == !old(self).level_spec().accepts(action_of(input)),
            r == InputResult::InvalidInput ==> *final(self) == *old(self),
            r != InputResult::InvalidInput ==> exists|res: Option<Result<usize, usize>>, l1: Level|
                #[trigger] Level::turn(old(self).level_spec(), action_of(input), Ok(res), l1)
                    && Game::settles(*old(self), r, res, l1, *final(self)),
    {
        let action = UserAction::from(input);
        let res = match self.current_level.advance(action) {
            Ok(res) => res,
            Err(()) => {
                return InputResult::InvalidInput;
            },
        };
        let ghost l1 = self.current_level;
        assert(Level::turn(old(self).level_spec(), action_of(input), Ok(res), l1));
        match res {
            None => {
                assert(Game::settles(*old(self), InputResult::Continuing, res, l1, *self));
                InputResult::Continuing
            },
            Some(Ok(score)) => {
                self.current_score = score;
                if self.levels.len() == 0 {
                    assert(Game::settles(*old(self), InputResult::GamePassed, res, l1, *self));
                    return InputResult::GamePassed;
                }
                self.current_level = self.levels.remove(0);
                assert(self.levels@ =~= old(self).levels@.drop_first());
                assert(Game::settles(*old(self), InputResult::LevelPassed, res, l1, *self));
                InputResult::LevelPassed
            },
            Some(Err(score)) => {
                self.current_score = score;
                assert(Game::settles(*old(self), InputResult::LevelFailed, res, l1, *self));
                InputResult::LevelFailed
            },
        }
    }
}

} // verus!
