use fisherman::entities::{Damageable, Marlin};
use fisherman::level::{
    poisson_step, sample_poisson, Game, InputResult, Level, SpawnIntensity, UserAction, WasmUserAction,
    WasmUserActionType,
};
use fisherman::map::{HexCoord, HexDir};
use rand::rngs::StdRng;
use rand::SeedableRng;

fn quiet_level(target: usize, hp: i32, seed: u64) -> Level {
    Level::new(
        target,
        hp,
        1,
        1,
        2,
        SpawnIntensity::constant(1_000_000),
        SpawnIntensity::constant(1_000_000),
        seed,
    )
}

fn shark_cells(l: &Level) -> Vec<(HexCoord, usize)> {
    l.get_map()
        .cells
        .iter()
        .filter(|(_, c)| !c.sharks.is_empty())
        .map(|(k, c)| (*k, c.sharks.len()))
        .collect()
}

#[test]
fn discover_at_harbor_fails_then_north_moves() {
    let mut l = quiet_level(1, 5, 11);
    assert_eq!(l.get_fisherman().get_hp(), 5);
    assert_eq!(l.get_fisherman().get_initial_hp(), 5);
    assert_eq!(l.advance(UserAction::Discover), Err(()));
    assert_eq!(l.advance(UserAction::Move(HexDir::north())), Ok(None));
    assert_eq!(l.get_fisherman().get_coord(), HexCoord::new(0, 1, -1));
}

#[test]
fn rejected_move_changes_nothing() {
    let mut l = quiet_level(1, 5, 12);
    l.place_shark(HexCoord::new(3, -1, -2));
    l.place_marlin(HexCoord::new(1, 1, -2));
    let before_f = l.get_fisherman();
    let before_map = format!("{:?}", l.get_map());
    assert_eq!(l.advance(UserAction::Move(HexDir::new(2, -1, -1))), Err(()));
    assert_eq!(l.advance(UserAction::Capture(HexDir::new(0, 2, -2))), Err(()));
    assert_eq!(l.advance(UserAction::Attack(HexCoord::new(3, -1, -2), 0)), Err(()));
    let after_f = l.get_fisherman();
    assert_eq!(after_f.get_coord(), before_f.get_coord());
    assert_eq!(after_f.get_hp(), before_f.get_hp());
    assert_eq!(after_f.get_captured_marlins(), before_f.get_captured_marlins());
    assert_eq!(format!("{:?}", l.get_map()), before_map);
}

#[test]
fn seen_shark_closes_in() {
    for seed in 0..20u64 {
        let mut l = quiet_level(1, 5, seed);
        l.place_shark(HexCoord::new(2, -1, -1));
        assert_eq!(l.advance(UserAction::Move(HexDir::zero())), Ok(None));
        let sharks = shark_cells(&l);
        assert_eq!(sharks.len(), 1);
        let (at, n) = sharks[0];
        assert_eq!(n, 1);
        assert_eq!(HexCoord::zero().distance(&at), 1);
        assert_eq!(at.distance(&HexCoord::new(2, -1, -1)), 1);
    }
}

#[test]
fn zero_intensity_spawns_nothing() {
    let mut rng = StdRng::seed_from_u64(5);
    for _ in 0..1000 {
        assert_eq!(sample_poisson(1_000_000, &mut rng), 0);
    }
    let mut l = quiet_level(3, 5, 6);
    for d in [HexDir::north(), HexDir::north(), HexDir::northeast(), HexDir::zero()] {
        assert_eq!(l.advance(UserAction::Move(d)), Ok(None));
        assert!(l.get_map().cells.iter().all(|(_, c)| c.marlins.is_empty() && c.sharks.is_empty()));
    }
}

#[test]
fn poisson_draws_follow_the_chance() {
    let mut rng = StdRng::seed_from_u64(8);
    let total: usize = (0..2000).map(|_| sample_poisson(367_879, &mut rng)).sum();
    assert!(total > 1700 && total < 2300);
}

#[test]
fn spawn_fills_the_ring_beyond_sight() {
    let mut l = Level::new(
        3,
        5,
        1,
        1,
        2,
        SpawnIntensity::constant(1),
        SpawnIntensity::constant(1_000_000),
        9,
    );
    assert_eq!(l.advance(UserAction::Move(HexDir::zero())), Ok(None));
    let map = l.get_map();
    assert_eq!(map.cells.len(), 30);
    for (c, cell) in &map.cells {
        assert_eq!(HexCoord::zero().distance(c), 5);
        assert!(!cell.marlins.is_empty());
        assert!(cell.marlins.iter().all(|m| m.get_hp() == 4 && !m.is_discovered()));
        assert!(cell.sharks.is_empty());
    }
}

#[test]
fn shark_bites_end_the_level_before_spawning() {
    let mut l = Level::new(
        1,
        1,
        1,
        1,
        2,
        SpawnIntensity::constant(1),
        SpawnIntensity::constant(1),
        10,
    );
    l.place_shark(HexCoord::new(0, 1, -1));
    assert_eq!(l.advance(UserAction::Move(HexDir::north())), Ok(Some(Err(0))));
    assert!(!l.get_fisherman().is_alive());
    let f = l.get_fisherman().get_coord();
    assert!(l.get_map().cells.iter().all(|(c, _)| f.distance(c) <= 4));
}

#[test]
fn dead_creatures_are_removed_at_end_of_turn() {
    let mut l = quiet_level(1, 5, 13);
    l.place_shark(HexCoord::new(0, 1, -1));
    assert_eq!(l.advance(UserAction::Move(HexDir::north())), Ok(None));
    assert_eq!(l.advance(UserAction::Attack(HexCoord::new(0, 1, -1), 0)), Ok(None));
    assert_eq!(l.advance(UserAction::Attack(HexCoord::new(0, 1, -1), 0)), Ok(None));
    let map = l.get_map();
    assert!(map.cells.iter().all(|(_, c)| c.sharks.iter().all(|s| s.is_alive())));
    assert!(shark_cells(&l).is_empty());
    assert_eq!(l.get_fisherman().get_hp(), 3);
}

#[test]
fn level_passes_at_harbor_with_target_met() {
    let mut l = quiet_level(0, 5, 14);
    assert_eq!(l.advance(UserAction::Move(HexDir::zero())), Ok(Some(Ok(0))));
}

#[test]
fn discover_through_a_turn_marks_marlins() {
    let mut l = Level::new(
        1,
        5,
        1,
        1,
        1,
        SpawnIntensity::constant(1_000_000),
        SpawnIntensity::constant(1_000_000),
        15,
    );
    assert_eq!(l.advance(UserAction::Move(HexDir::north())), Ok(None));
    l.place_marlin(HexCoord::new(0, 2, -2));
    assert_eq!(l.advance(UserAction::Discover), Ok(None));
    let m = l.get_map();
    let seen: Vec<Marlin> = m.cells.iter().flat_map(|(_, c)| c.marlins.clone()).collect();
    assert_eq!(seen.len(), 1);
    assert!(seen[0].is_discovered());
}

#[test]
fn spawn_intensity_table() {
    let s = SpawnIntensity { by_distance: vec![10, 20], beyond: 30 };
    assert_eq!(s.at(0), 10);
    assert_eq!(s.at(1), 20);
    assert_eq!(s.at(2), 30);
    assert_eq!(s.at(-1), 30);
    assert_eq!(SpawnIntensity::constant(5).at(7), 5);
}

#[test]
fn flat_actions_convert_both_ways() {
    let a = WasmUserAction::move_action(HexCoord::new(0, 1, -1));
    assert!(matches!(UserAction::from(a), UserAction::Move(d) if d == HexDir::north()));
    let a = WasmUserAction::capture_action(HexCoord::new(1, -1, 0));
    assert!(matches!(UserAction::from(a), UserAction::Capture(d) if d == HexDir::southeast()));
    let a = WasmUserAction::attack_action(HexCoord::new(2, 0, -2), 3);
    assert!(matches!(UserAction::from(a), UserAction::Attack(c, 3) if c == HexCoord::new(2, 0, -2)));
    assert!(matches!(UserAction::from(WasmUserAction::discover_action()), UserAction::Discover));
    let w = WasmUserAction::from(UserAction::Move(HexDir::south()));
    assert_eq!(w.action_type, WasmUserActionType::Move);
    assert_eq!(w.param_0, HexCoord::new(0, -1, 1));
    let w = WasmUserAction::from(UserAction::Attack(HexCoord::new(1, 1, -2), 4));
    assert_eq!(w.action_type, WasmUserActionType::Attack);
    assert_eq!(w.param_1, 4);
    let d = WasmUserAction::default();
    assert_eq!(d.action_type, WasmUserActionType::Move);
}

#[test]
fn game_rejects_then_plays() {
    let mut g = Game::new();
    assert_eq!(g.get_target(), 5);
    assert_eq!(g.get_score(), 0);
    assert_eq!(g.handle_action(WasmUserAction::discover_action()), InputResult::InvalidInput);
    let r = g.handle_action(WasmUserAction::move_action(HexCoord::new(0, 1, -1)));
    assert!(r == InputResult::Continuing || r == InputResult::LevelFailed);
    assert_eq!(g.get_fisherman().get_coord(), HexCoord::new(0, 1, -1));
}

#[test]
fn game_advances_through_levels() {
    let first = quiet_level(0, 5, 20);
    let second = quiet_level(0, 5, 21);
    let mut g = Game::from_levels(first, vec![second]);
    let stay = WasmUserAction::move_action(HexCoord::zero());
    assert_eq!(g.handle_action(stay), InputResult::LevelPassed);
    assert_eq!(g.get_score(), 0);
    assert_eq!(g.handle_action(stay), InputResult::GamePassed);
}

#[test]
fn game_counts_cells() {
    let mut first = quiet_level(3, 5, 22);
    first.place_shark(HexCoord::new(1, 1, -2));
    first.place_shark(HexCoord::new(1, 1, -2));
    first.place_marlin(HexCoord::new(2, 1, -3));
    let g = Game::from_levels(first, vec![]);
    assert_eq!(g.get_shark_num_at(&HexCoord::new(1, 1, -2)), 2);
    assert_eq!(g.get_shark_num_at(&HexCoord::new(0, 1, -1)), 0);
    assert!(g.get_nth_shark_at(&HexCoord::new(1, 1, -2), 1).is_some());
    assert!(g.get_nth_shark_at(&HexCoord::new(1, 1, -2), 2).is_none());
    assert_eq!(g.get_discovered_marlin_num_at(&HexCoord::new(2, 1, -3)), 0);
}

#[test]
fn game_records_failure_score() {
    let mut first = quiet_level(3, 1, 23);
    first.place_shark(HexCoord::new(0, 1, -1));
    let mut g = Game::from_levels(first, vec![]);
    let north = WasmUserAction::move_action(HexCoord::new(0, 1, -1));
    assert_eq!(g.handle_action(north), InputResult::LevelFailed);
    assert_eq!(g.get_score(), 0);
}

#[test]
fn shark_bites_a_marlin_in_its_cell() {
    let mut l = quiet_level(1, 5, 24);
    let lair = HexCoord::new(3, 0, -3);
    for _ in 0..30 {
        l.place_marlin(lair);
    }
    l.place_shark(lair);
    assert_eq!(l.advance(UserAction::Move(HexDir::zero())), Ok(None));
    let map = l.get_map();
    let marlins: Vec<Marlin> = map.cells.iter().flat_map(|(_, c)| c.marlins.clone()).collect();
    assert_eq!(marlins.len(), 30);
    let at_lair = map.cells.iter().find(|(c, _)| *c == lair).unwrap();
    assert_eq!(at_lair.1.sharks.len(), 1);
    assert!(!at_lair.1.marlins.is_empty());
    assert_eq!(marlins.iter().filter(|m| m.get_hp() == 3).count(), 1);
    assert_eq!(marlins.iter().filter(|m| m.get_hp() == 4).count(), 29);
}

#[test]
fn turns_keep_only_live_creatures_and_useful_cells() {
    let mut l = Level::new(
        3,
        50,
        1,
        1,
        2,
        SpawnIntensity::constant(500_000),
        SpawnIntensity::constant(600_000),
        25,
    );
    let moves = [HexDir::north(), HexDir::northeast(), HexDir::southeast(), HexDir::south()];
    for t in 0..12 {
        let r = l.advance(UserAction::Move(moves[t % 4]));
        assert!(r.is_ok());
        if r != Ok(None) {
            break;
        }
        let f = l.get_fisherman().get_coord();
        for (c, cell) in &l.get_map().cells {
            assert!(cell.marlins.iter().all(|m| m.is_alive()));
            assert!(cell.sharks.iter().all(|s| s.is_alive()));
            assert!(!(cell.marlins.is_empty() && cell.sharks.is_empty()) || f.distance(c) <= 4);
        }
    }
}

#[test]
fn poisson_step_multiplies_and_stops_below_the_chance() {
    let one: u64 = 1 << 32;
    let half: u32 = 1 << 31;
    assert_eq!(poisson_step(one, half, 1_000_000), None);
    assert_eq!(poisson_step(one, half, 400_000), Some(1 << 31));
    assert_eq!(poisson_step(1 << 31, half, 200_000), Some(1 << 30));
    assert_eq!(poisson_step(1 << 31, half, 300_000), None);
    assert_eq!(poisson_step(1, half, 0), None);
}
