use fisherman::entities::{Attacker, Damageable, Fisherman, Marlin, Shark};
use fisherman::map::{Grid, HexCoord, HexDir};
use rand::rngs::StdRng;
use rand::SeedableRng;

fn grid_with_marlins(c: HexCoord, n: usize, discovered: bool) -> Grid {
    let mut g = Grid::new();
    for _ in 0..n {
        let mut m = Marlin::new();
        if discovered {
            m.discover();
        }
        g.add_marlin(c, m);
    }
    g
}

fn moved(f: &mut Fisherman, d: HexDir) {
    assert!(f.operate(d));
}

#[test]
fn new_creatures_are_healthy_and_unseen() {
    let m = Marlin::new();
    assert!(!m.is_discovered());
    assert_eq!(m.get_hp(), 4);
    assert_eq!(m.get_initial_hp(), 4);
    assert!(m.is_alive());
    assert!(!m.is_hurt());
    let s = Shark::new();
    assert_eq!(s.get_hp(), 2);
    assert!(!s.is_hurt());
}

#[test]
fn damage_and_shark_bite() {
    let mut m = Marlin::new();
    Shark::new().attack(&mut m);
    assert_eq!(m.get_hp(), 3);
    assert!(m.is_hurt());
    m.take_damage(3);
    assert_eq!(m.get_hp(), 0);
    assert!(!m.is_alive());
    let mut f = Fisherman::new(5, 1, 1, 2);
    Shark::new().attack(&mut f);
    assert_eq!(f.get_hp(), 4);
    assert!(f.is_hurt());
}

#[test]
fn hit_points_stop_at_the_bound() {
    let mut s = Shark::new();
    s.take_damage(i32::MAX);
    s.take_damage(i32::MAX);
    assert_eq!(s.get_hp(), i32::MIN);
}

#[test]
fn operate_moves_one_step_or_refuses() {
    let mut f = Fisherman::new(5, 1, 1, 2);
    assert!(f.operate(HexDir::north()));
    assert_eq!(f.get_coord(), HexCoord::new(0, 1, -1));
    assert!(!f.operate(HexDir::new(2, -1, -1)));
    assert!(!f.operate(HexDir::new_unchecked(1, 0, 0)));
    assert_eq!(f.get_coord(), HexCoord::new(0, 1, -1));
    assert!(f.operate(HexDir::zero()));
    assert_eq!(f.get_coord(), HexCoord::new(0, 1, -1));
}

#[test]
fn discover_fails_at_harbor_and_marks_nearby_marlins() {
    let mut f = Fisherman::new(5, 1, 1, 2);
    let mut g = grid_with_marlins(HexCoord::new(0, 2, -2), 2, false);
    g.add_marlin(HexCoord::new(0, 4, -4), Marlin::new());
    assert!(!f.discover_marlins(&mut g));
    assert!(g.cells.iter().all(|(_, c)| c.marlins.iter().all(|m| !m.is_discovered())));
    moved(&mut f, HexDir::north());
    assert!(f.discover_marlins(&mut g));
    let near = g.get(&HexCoord::new(0, 2, -2)).unwrap();
    assert!(near.marlins.iter().all(|m| m.is_discovered() && m.get_hp() == 4));
    let far = g.get(&HexCoord::new(0, 4, -4)).unwrap();
    assert!(!far.marlins[0].is_discovered());
}

#[test]
fn capture_fails_at_harbor_and_out_of_range() {
    let mut rng = StdRng::seed_from_u64(7);
    let mut f = Fisherman::new(5, 1, 1, 1);
    let target = HexCoord::new(0, 1, -1);
    let mut g = grid_with_marlins(target, 2, true);
    assert!(!f.capture_marlins(target, &mut g, &mut rng));
    moved(&mut f, HexDir::south());
    assert!(!f.capture_marlins(target, &mut g, &mut rng));
    assert_eq!(f.get_captured_marlins(), 0);
    assert_eq!(g.get(&target).unwrap().marlins.len(), 2);
}

#[test]
fn capture_spares_undiscovered_marlins() {
    let mut rng = StdRng::seed_from_u64(1);
    let mut f = Fisherman::new(5, 1, 1, 1);
    moved(&mut f, HexDir::north());
    let target = HexCoord::new(0, 2, -2);
    let mut g = grid_with_marlins(target, 3, false);
    assert!(f.capture_marlins(target, &mut g, &mut rng));
    assert_eq!(f.get_captured_marlins(), 0);
    let cell = g.get(&target).unwrap();
    assert_eq!(cell.marlins.len(), 3);
    assert!(cell.marlins.iter().all(|m| m.get_hp() == 4));
}

#[test]
fn sure_capture_takes_every_discovered_marlin() {
    let mut rng = StdRng::seed_from_u64(2);
    let mut f = Fisherman::new(5, 1, 1, 1);
    moved(&mut f, HexDir::north());
    let target = HexCoord::new(0, 2, -2);
    let mut g = grid_with_marlins(target, 3, true);
    g.add_marlin(target, Marlin::new());
    assert!(f.capture_marlins(target, &mut g, &mut rng));
    assert_eq!(f.get_captured_marlins(), 3);
    let cell = g.get(&target).unwrap();
    assert_eq!(cell.marlins.len(), 1);
    assert!(!cell.marlins[0].is_discovered());
}

#[test]
fn hopeless_capture_hurts_each_discovered_marlin() {
    let mut rng = StdRng::seed_from_u64(3);
    let mut f = Fisherman::new(5, 1, 0, 1);
    moved(&mut f, HexDir::north());
    let target = HexCoord::new(0, 1, -1);
    let mut g = grid_with_marlins(target, 2, true);
    assert!(f.capture_marlins(target, &mut g, &mut rng));
    assert_eq!(f.get_captured_marlins(), 0);
    let cell = g.get(&target).unwrap();
    assert_eq!(cell.marlins.len(), 2);
    assert!(cell.marlins.iter().all(|m| m.get_hp() == 3));
}

#[test]
fn capture_on_an_absent_cell_is_a_no_op() {
    let mut rng = StdRng::seed_from_u64(4);
    let mut f = Fisherman::new(5, 1, 1, 1);
    moved(&mut f, HexDir::north());
    let mut g = Grid::new();
    assert!(f.capture_marlins(HexCoord::new(1, 0, -1), &mut g, &mut rng));
    assert_eq!(g.cells.len(), 0);
    assert_eq!(f.get_captured_marlins(), 0);
}

#[test]
fn attack_shark_needs_a_shark_and_open_water() {
    let mut f = Fisherman::new(5, 2, 1, 2);
    let mut s = Shark::new();
    assert!(!f.attack_shark(Some(&mut s)));
    assert_eq!(s.get_hp(), 2);
    moved(&mut f, HexDir::north());
    assert!(!f.attack_shark(None));
    assert!(f.attack_shark(Some(&mut s)));
    assert_eq!(s.get_hp(), 0);
    assert!(!s.is_alive());
}
