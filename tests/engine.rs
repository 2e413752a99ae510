use rand::rngs::StdRng;
use rand::SeedableRng;
use sea_battle::fleet::{get_default_fleet, try_place, GameError};
use sea_battle::game::{Notification, PlayBoard, State};
use sea_battle::grid::Coordinates;
use sea_battle::player::Player;
use sea_battle::settings::FieldSettings;
use sea_battle::ship::Ship;

fn near(a: usize, b: usize) -> bool {
    let (ra, ca) = ((a / 10) as i64, (a % 10) as i64);
    let (rb, cb) = ((b / 10) as i64, (b % 10) as i64);
    (ra - rb).abs() <= 1 && (ca - cb).abs() <= 1
}

fn sorted(mut v: Vec<usize>) -> Vec<usize> {
    v.sort();
    v
}

#[test]
fn generated_fleet_is_standard_and_apart() {
    for seed in 0..20u64 {
        let mut rng = StdRng::seed_from_u64(seed);
        let ships = get_default_fleet(&mut rng).unwrap();
        assert_eq!(ships.len(), 10);
        let sizes: Vec<usize> = ships.iter().map(|s| s.get_size()).collect();
        assert_eq!(sizes, vec![4, 3, 3, 2, 2, 2, 1, 1, 1, 1]);
        let total: usize = ships.iter().map(|s| s.get_area_ship().len()).sum();
        assert_eq!(total, 20);
        for i in 0..10 {
            for j in 0..10 {
                if i == j {
                    continue;
                }
                for &a in ships[i].get_area_ship().iter() {
                    for &b in ships[j].get_area_ship().iter() {
                        assert!(a != b);
                        assert!(!near(a, b));
                    }
                }
            }
        }
    }
}

#[test]
fn footprint_of_ships() {
    let h = Ship::new(5, true, 2);
    assert_eq!(h.get_area_ship(), vec![5, 6]);
    let v = Ship::new(12, false, 3);
    assert_eq!(v.get_area_ship(), vec![12, 22, 32]);
    assert!(v.check_idx_for_ship(22));
    assert!(!v.check_idx_for_ship(13));
}

#[test]
fn every_hit_sinks_on_last_cell() {
    let mut s = Ship::new(33, false, 4);
    assert!(s.check_is_alive());
    assert!(!s.check_is_wounded());
    assert!(s.knock_down(63));
    assert!(s.check_is_wounded());
    assert!(s.knock_down(33));
    assert!(s.knock_down(53));
    assert_eq!(s.get_fire_cell_idxes(), &vec![33, 53, 63]);
    assert!(!s.knock_down(43));
    assert!(!s.check_is_alive());
    assert!(!s.check_is_wounded());
    assert_eq!(s.get_fire_cell_idxes(), &vec![33, 43, 53, 63]);
}

#[test]
fn two_deck_ship_scenario() {
    let mut p = Player::with_fleet("a", true, vec![Ship::new(5, true, 2)]);
    assert_eq!(p.process_a_shot(5), (Some(0), true, true));
    assert_eq!(p.process_a_shot(6), (Some(0), true, false));
    let ring = p.get_ship_by_idx_as_mut_ref(0).unwrap().get_area_near_ship(None);
    assert!(!ring.contains(&5) && !ring.contains(&6));
    for c in [4, 7, 14, 15, 16] {
        assert!(ring.contains(&c));
    }
    assert_eq!(sorted(ring), vec![4, 7, 14, 15, 16, 17]);
}

#[test]
fn ring_of_a_corner_ship() {
    let s = Ship::new(0, false, 2);
    assert_eq!(sorted(s.get_area_near_ship(None)), vec![1, 11, 20, 21]);
    let given = s.get_area_ship();
    assert_eq!(sorted(s.get_area_near_ship(Some(given))), vec![1, 11, 20, 21]);
}

#[test]
fn shot_at_empty_cell_is_a_miss() {
    let mut p = Player::with_fleet("a", true, vec![Ship::new(5, true, 2)]);
    assert_eq!(p.process_a_shot(50), (None, false, true));
    assert_eq!(p.get_misses(), &vec![50]);
    assert!(p.get_hits().is_empty());
}

#[test]
fn repeated_miss_is_not_recorded_twice() {
    let mut p = Player::with_fleet("a", true, vec![Ship::new(5, true, 2)]);
    assert_eq!(p.process_a_shot(50), (None, false, true));
    assert_eq!(p.process_a_shot(50), (None, false, true));
    assert_eq!(p.get_misses(), &vec![50]);
}

#[test]
fn repeated_hit_is_not_recorded_twice() {
    let mut p = Player::with_fleet("a", true, vec![Ship::new(5, true, 2)]);
    assert_eq!(p.process_a_shot(5), (Some(0), true, true));
    assert_eq!(p.process_a_shot(5), (Some(0), true, true));
    assert_eq!(p.get_hits(), &vec![5]);
    assert_eq!(p.get_ships()[0].get_fire_cell_idxes(), &vec![5]);
}

#[test]
fn living_ships_are_counted() {
    let mut p = Player::with_fleet("a", true, vec![Ship::new(0, true, 1), Ship::new(22, true, 1)]);
    assert_eq!(p.get_num_living_ships(), 2);
    p.process_a_shot(22);
    assert_eq!(p.get_num_living_ships(), 1);
    p.process_a_shot(0);
    assert_eq!(p.get_num_living_ships(), 0);
}

#[test]
fn single_hit_targets_orthogonal_neighbours() {
    let mut p = Player::with_fleet("a", true, vec![Ship::new(44, true, 2)]);
    p.process_a_shot(44);
    assert_eq!(sorted(p.target_candidates()), vec![34, 43, 45, 54]);
    for seed in 0..30u64 {
        let mut rng = StdRng::seed_from_u64(seed);
        let c = p.generate_new_auto_shot_idx(&mut rng).unwrap();
        assert!([34, 54, 43, 45].contains(&c));
    }
}

#[test]
fn run_of_hits_targets_its_ends() {
    let mut p = Player::with_fleet("a", true, vec![Ship::new(42, true, 4)]);
    p.process_a_shot(43);
    p.process_a_shot(44);
    assert_eq!(sorted(p.target_candidates()), vec![42, 45]);
    p.process_a_shot(42);
    p.process_a_shot(41);
    assert_eq!(sorted(p.target_candidates()), vec![45]);
    let mut q = Player::with_fleet("b", true, vec![Ship::new(13, false, 3)]);
    q.process_a_shot(23);
    q.process_a_shot(33);
    assert_eq!(sorted(q.target_candidates()), vec![13, 43]);
}

#[test]
fn targeting_skips_shot_cells() {
    let mut p = Player::with_fleet("a", true, vec![Ship::new(0, true, 2)]);
    p.process_a_shot(10);
    p.process_a_shot(0);
    assert_eq!(p.target_candidates(), vec![1]);
    let q = Player::with_fleet("b", true, vec![Ship::new(0, true, 2)]);
    assert!(q.target_candidates().is_empty());
}

#[test]
fn auto_shot_never_repeats() {
    let mut rng = StdRng::seed_from_u64(3);
    let mut p = Player::create("a", false, &mut rng).unwrap();
    let mut seen = Vec::new();
    for _ in 0..100 {
        let c = p.generate_new_auto_shot_idx(&mut rng).unwrap();
        assert!(!seen.contains(&c));
        seen.push(c);
        p.process_a_shot(c);
    }
    assert_eq!(p.generate_new_auto_shot_idx(&mut rng), None);
    assert_eq!(p.first_unshot_cell(), None);
}

#[test]
fn first_unshot_cell_is_lowest() {
    let mut p = Player::with_fleet("a", true, vec![Ship::new(5, true, 2)]);
    assert_eq!(p.first_unshot_cell(), Some(0));
    p.process_a_shot(0);
    p.process_a_shot(1);
    assert_eq!(p.first_unshot_cell(), Some(2));
}

fn small_board(second_manual: bool) -> PlayBoard {
    let a = Player::with_fleet("Alice", true, vec![Ship::new(0, true, 1)]);
    let b = Player::with_fleet("Bob", second_manual, vec![Ship::new(5, true, 2), Ship::new(55, false, 1)]);
    PlayBoard::new(a, b)
}

#[test]
fn sinking_marks_the_ring_as_missed() {
    let mut rng = StdRng::seed_from_u64(1);
    let mut g = small_board(true);
    let ev = g.shoot(5, 2, &mut rng).unwrap();
    assert_eq!(ev, vec![Notification::CellChanged(2, 5, State::Fire)]);
    let ev = g.shoot(6, 2, &mut rng).unwrap();
    assert_eq!(ev.last(), Some(&Notification::CellChanged(2, 6, State::Fire)));
    assert_eq!(sorted(g.get_second_player().get_misses().clone()), vec![4, 7, 14, 15, 16, 17]);
    assert!(ev.contains(&Notification::CellChanged(2, 14, State::Miss)));
    assert!(g.is_first_player_turn());
}

#[test]
fn miss_passes_the_turn() {
    let mut rng = StdRng::seed_from_u64(1);
    let mut g = small_board(true);
    let ev = g.shoot(99, 2, &mut rng).unwrap();
    assert_eq!(ev, vec![Notification::CellChanged(2, 99, State::Miss), Notification::TurnChanged]);
    assert!(!g.is_first_player_turn());
    assert_eq!(g.shoot(98, 2, &mut rng), Err(GameError::StaleShot));
    assert_eq!(g.shoot(0, 1, &mut rng).unwrap().last(), Some(&Notification::GameOver("Bob".to_string())));
}

#[test]
fn game_over_when_fleet_sunk() {
    let mut rng = StdRng::seed_from_u64(1);
    let mut g = small_board(true);
    g.shoot(5, 2, &mut rng).unwrap();
    g.shoot(6, 2, &mut rng).unwrap();
    assert!(!g.is_game_over());
    assert_eq!(g.get_second_player().get_num_living_ships(), 1);
    let ev = g.shoot(55, 2, &mut rng).unwrap();
    assert_eq!(ev.last(), Some(&Notification::GameOver("Alice".to_string())));
    assert!(g.is_game_over());
    assert_eq!(g.get_second_player().get_num_living_ships(), 0);
    assert_eq!(g.shoot(1, 2, &mut rng), Err(GameError::GameFinished));
}

#[test]
fn shot_errors() {
    let mut rng = StdRng::seed_from_u64(1);
    let mut g = small_board(true);
    assert_eq!(g.shoot(100, 2, &mut rng), Err(GameError::OutOfBounds));
    assert_eq!(g.shoot(3, 1, &mut rng), Err(GameError::StaleShot));
    assert!(g.get_second_player().get_misses().is_empty());
}

#[test]
fn computer_answers_a_miss() {
    let mut rng = StdRng::seed_from_u64(9);
    let mut g = small_board(false);
    let ev = g.shoot(99, 2, &mut rng).unwrap();
    assert!(ev.iter().any(|n| matches!(n, Notification::CellChanged(1, _, _))));
    assert!(g.is_game_over() || g.is_first_player_turn());
}

#[test]
fn computer_against_computer_ends() {
    let mut rng = StdRng::seed_from_u64(5);
    let a = Player::create("A", false, &mut rng).unwrap();
    let b = Player::create("B", false, &mut rng).unwrap();
    let mut g = PlayBoard::new(a, b);
    let mut cell = 0;
    while !g.is_first_player_turn() || g.get_second_player().get_misses().contains(&cell)
        || g.get_second_player().get_hits().contains(&cell) {
        cell += 1;
    }
    g.shoot(cell, 2, &mut rng).unwrap();
    assert!(g.is_game_over());
    let lost = [g.get_first_player().get_num_living_ships(), g.get_second_player().get_num_living_ships()];
    assert!(lost.contains(&0));
}

#[test]
fn coordinates_round_trip() {
    let c = Coordinates::from_idx(47);
    assert_eq!((c.x, c.y), (7, 4));
    assert_eq!(c.to_idx(), 47);
    let f = FieldSettings::standard();
    assert_eq!((f.width_field, f.height_field), (10, 10));
}

#[test]
fn try_place_marks_ship_and_ring() {
    let mut busy = vec![false; 100];
    let s = try_place(&mut busy, 2, true, 0, 5).unwrap();
    assert_eq!(s.get_area_ship(), vec![5, 6]);
    let marked: Vec<usize> = (0..100).filter(|&c| busy[c]).collect();
    assert_eq!(marked, vec![4, 5, 6, 7, 14, 15, 16, 17]);
    let before = busy.clone();
    assert!(try_place(&mut busy, 3, false, 1, 6).is_none());
    assert_eq!(busy, before);
    let t = try_place(&mut busy, 1, true, 9, 9).unwrap();
    assert_eq!(t.get_first_deck(), 99);
    assert!(busy[88] && busy[89] && busy[98] && busy[99]);
}

#[test]
fn ring_is_the_same_with_given_footprint() {
    for (first, horizontal, size) in [(5, true, 2), (0, false, 4), (96, true, 4), (44, false, 3), (99, true, 1)] {
        let s = Ship::new(first, horizontal, size);
        let ring = s.get_area_near_ship(None);
        assert_eq!(s.get_area_near_ship(Some(s.get_area_ship())), ring);
        let mut dedup = ring.clone();
        dedup.sort();
        dedup.dedup();
        assert_eq!(dedup.len(), ring.len());
    }
}

#[test]
fn created_player_has_standard_fleet() {
    let mut rng = StdRng::seed_from_u64(11);
    let p = Player::create("Ann", true, &mut rng).unwrap();
    assert_eq!(p.get_name(), "Ann");
    assert!(p.is_manual());
    assert_eq!(p.get_num_living_ships(), 10);
    let sizes: Vec<usize> = p.get_ships().iter().map(|s| s.get_size()).collect();
    assert_eq!(sizes, vec![4, 3, 3, 2, 2, 2, 1, 1, 1, 1]);
    assert!(p.get_misses().is_empty() && p.get_hits().is_empty());
}

#[test]
fn single_step_reports_outcome() {
    let mut g = small_board(true);
    let mut events = Vec::new();
    assert_eq!(g.step(5, &mut events), (Some(0), true, true));
    assert!(g.is_first_player_turn());
    assert_eq!(g.step(50, &mut events), (None, false, true));
    assert!(!g.is_first_player_turn());
    assert_eq!(events, vec![
        Notification::CellChanged(2, 5, State::Fire),
        Notification::CellChanged(2, 50, State::Miss),
        Notification::TurnChanged,
    ]);
}
