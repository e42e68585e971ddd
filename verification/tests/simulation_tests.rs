use std::collections::VecDeque;

use rand::rngs::StdRng;
use rand::SeedableRng;

use robots_game::assignment::assign_collectors;
use robots_game::collections::PositionSet;
use robots_game::robot::{choose_move, move_scout, move_with_draws, Robot, RobotState, RobotType};
use robots_game::setup::{base_position, seed_resources, spawn_robots, stock_from_draws};
use robots_game::simulation::{
    deposit_resources, reroute_path, step_sideways, tick_collector_collecting,
    tick_collector_exploring, tick_collector_moving_to_resource, tick_collector_returning_to_base,
    counters_fit, tick_robot, tick_scout, SimulationState,
};
use robots_game::world::Terrain;

fn open_map() -> Vec<Vec<Terrain>> {
    vec![vec![Terrain::Low; 10]; 10]
}

fn collector_at(pos: (u16, u16), state: RobotState) -> Robot {
    let mut r = Robot::new(pos, RobotType::Collector, (1, 0));
    r.state = state;
    r
}

fn total(state: &SimulationState) -> u64 {
    let mut t = state.deposited_crystals as u64 + state.deposited_energy as u64;
    for r in &state.robots {
        t += r.carried_crystals as u64 + r.carried_energy as u64;
    }
    for i in 0..state.resource_quantities.len() {
        t += state.resource_quantities.entry(i).1 as u64;
    }
    t
}

#[test]
fn robot_new_starts_idle_and_empty() {
    let r = Robot::new((3, 4), RobotType::Scout, (0, 1));
    assert_eq!(r.position, (3, 4));
    assert_eq!(r.robot_type, RobotType::Scout);
    assert_eq!(r.state, RobotState::Exploring);
    assert_eq!(r.carried_crystals, 0);
    assert_eq!(r.carried_energy, 0);
    assert!(r.path.is_empty());
    assert_eq!(r.preferred_dir, (0, 1));
}

#[test]
fn deposit_moves_load_to_base_counters() {
    let mut r = collector_at((5, 5), RobotState::ReturningToBase);
    r.carried_crystals = 4;
    r.carried_energy = 6;
    let mut state = SimulationState::new(open_map(), (5, 5), vec![r]);
    state.deposited_crystals = 10;
    deposit_resources(&mut state, 0);
    assert_eq!(state.deposited_crystals, 14);
    assert_eq!(state.deposited_energy, 6);
    assert_eq!(state.robots[0].carried_crystals, 0);
    assert_eq!(state.robots[0].carried_energy, 0);
    assert_eq!(state.robots[0].state, RobotState::Exploring);
}

#[test]
fn step_sideways_takes_first_free_direction() {
    let r = collector_at((2, 2), RobotState::ReturningToBase);
    let mut state = SimulationState::new(open_map(), (7, 7), vec![r]);
    let mut occ = PositionSet::new();
    occ.insert((2, 1));
    assert!(step_sideways(&mut state, 0, &occ));
    assert_eq!(state.robots[0].position, (2, 3));
}

#[test]
fn step_sideways_blocked_everywhere_stays() {
    let mut map = open_map();
    map[1][2] = Terrain::Obstacle;
    map[3][2] = Terrain::Obstacle;
    let r = collector_at((2, 2), RobotState::ReturningToBase);
    let mut state = SimulationState::new(map, (7, 7), vec![r]);
    let mut occ = PositionSet::new();
    occ.insert((1, 2));
    occ.insert((3, 2));
    assert!(!step_sideways(&mut state, 0, &occ));
    assert_eq!(state.robots[0].position, (2, 2));
}

#[test]
fn reroute_moves_one_step_along_new_route() {
    let r = collector_at((1, 1), RobotState::MovingToResource);
    let mut state = SimulationState::new(open_map(), (7, 7), vec![r]);
    assert!(reroute_path(&mut state, 0, (1, 4)));
    assert_eq!(state.robots[0].position, (1, 2));
    assert_eq!(state.robots[0].path, VecDeque::from(vec![(1, 3), (1, 4)]));
    assert!(!reroute_path(&mut state, 0, (1, 2)));
    assert_eq!(state.robots[0].position, (1, 2));
}

#[test]
fn moving_collector_arrives_and_starts_collecting() {
    let mut map = open_map();
    map[2][3] = Terrain::Energy;
    let mut r = collector_at((2, 2), RobotState::MovingToResource);
    r.path = VecDeque::from(vec![(3, 2)]);
    let mut state = SimulationState::new(map, (7, 7), vec![r]);
    state.resource_quantities.insert((3, 2), 9);
    let occ = PositionSet::new();
    tick_collector_moving_to_resource(&mut state, 0, &occ);
    assert_eq!(state.robots[0].position, (3, 2));
    assert_eq!(state.robots[0].state, RobotState::Collecting);
}

#[test]
fn moving_collector_reaching_empty_cell_explores() {
    let mut r = collector_at((2, 2), RobotState::MovingToResource);
    r.path = VecDeque::from(vec![(3, 2)]);
    let mut state = SimulationState::new(open_map(), (7, 7), vec![r]);
    let occ = PositionSet::new();
    tick_collector_moving_to_resource(&mut state, 0, &occ);
    assert_eq!(state.robots[0].position, (3, 2));
    assert_eq!(state.robots[0].state, RobotState::Exploring);
}

#[test]
fn moving_collector_reroutes_around_blocker() {
    let mut r = collector_at((1, 1), RobotState::MovingToResource);
    r.path = VecDeque::from(vec![(2, 1), (3, 1)]);
    let mut state = SimulationState::new(open_map(), (7, 7), vec![r]);
    let mut occ = PositionSet::new();
    occ.insert((2, 1));
    tick_collector_moving_to_resource(&mut state, 0, &occ);
    // The re-planned route to (3, 1) goes straight through (2, 1) again
    // (robots are not obstacles for the search): one step taken.
    assert_eq!(state.robots[0].position, (2, 1));
    assert_eq!(state.robots[0].path, VecDeque::from(vec![(3, 1)]));
    assert_eq!(state.robots[0].state, RobotState::MovingToResource);
}

#[test]
fn moving_collector_gives_up_when_target_unreachable() {
    let mut map = open_map();
    map[1][3] = Terrain::Obstacle;
    map[2][2] = Terrain::Obstacle;
    map[2][4] = Terrain::Obstacle;
    map[1][4] = Terrain::Low;
    map[2][3] = Terrain::Obstacle;
    let mut r = collector_at((1, 1), RobotState::MovingToResource);
    r.path = VecDeque::from(vec![(2, 1), (3, 1)]);
    let mut state = SimulationState::new(map, (7, 7), vec![r]);
    let mut occ = PositionSet::new();
    occ.insert((2, 1));
    tick_collector_moving_to_resource(&mut state, 0, &occ);
    assert_eq!(state.robots[0].position, (1, 1));
    assert!(state.robots[0].path.is_empty());
    assert_eq!(state.robots[0].state, RobotState::Exploring);
}

#[test]
fn returning_with_empty_path_explores() {
    let r = collector_at((2, 2), RobotState::ReturningToBase);
    let mut state = SimulationState::new(open_map(), (7, 7), vec![r]);
    let occ = PositionSet::new();
    tick_collector_returning_to_base(&mut state, 0, &occ);
    assert_eq!(state.robots[0].state, RobotState::Exploring);
    assert_eq!(state.robots[0].position, (2, 2));
}

#[test]
fn returning_blocked_and_stuck_keeps_path() {
    let mut map = open_map();
    for y in 0..10 {
        for x in 0..10 {
            map[y][x] = Terrain::Obstacle;
        }
    }
    map[2][2] = Terrain::Low;
    map[2][3] = Terrain::Low;
    let mut r = collector_at((2, 2), RobotState::ReturningToBase);
    r.path = VecDeque::from(vec![(3, 2), (7, 7)]);
    let mut state = SimulationState::new(map, (7, 7), vec![r]);
    let mut occ = PositionSet::new();
    occ.insert((3, 2));
    tick_collector_returning_to_base(&mut state, 0, &occ);
    assert_eq!(state.robots[0].position, (2, 2));
    assert_eq!(state.robots[0].path, VecDeque::from(vec![(3, 2), (7, 7)]));
}

#[test]
fn collecting_on_plain_cell_takes_without_carrying() {
    let r = collector_at((3, 3), RobotState::Collecting);
    let mut state = SimulationState::new(open_map(), (7, 7), vec![r]);
    state.resource_quantities.insert((3, 3), 1);
    tick_collector_collecting(&mut state, 0);
    assert_eq!(state.resource_quantities.get((3, 3)), Some(0));
    assert_eq!(state.robots[0].carried_crystals, 0);
    assert_eq!(state.robots[0].carried_energy, 0);
    assert_eq!(state.robots[0].state, RobotState::Collecting);
    tick_collector_collecting(&mut state, 0);
    assert_eq!(state.robots[0].state, RobotState::ReturningToBase);
    assert_eq!(state.robots[0].path.back(), Some(&(7, 7)));
}

#[test]
fn collecting_stops_when_full() {
    let mut map = open_map();
    map[3][3] = Terrain::Energy;
    let mut r = collector_at((3, 3), RobotState::Collecting);
    r.carried_crystals = 20;
    r.carried_energy = 4;
    let mut state = SimulationState::new(map, (7, 7), vec![r]);
    state.resource_quantities.insert((3, 3), 100);
    tick_collector_collecting(&mut state, 0);
    assert_eq!(state.robots[0].carried_energy, 5);
    assert_eq!(state.resource_quantities.get((3, 3)), Some(99));
    assert_eq!(state.robots[0].state, RobotState::ReturningToBase);
    assert_eq!(state.robots[0].path.len(), 8);
}

#[test]
fn exploring_collector_starts_collecting_on_stock() {
    let mut map = open_map();
    map[2][3] = Terrain::Crystal;
    let r = collector_at((2, 2), RobotState::Exploring);
    let mut state = SimulationState::new(map, (7, 7), vec![r]);
    state.resource_quantities.insert((3, 2), 5);
    let mut occ = PositionSet::new();
    occ.insert((2, 1));
    occ.insert((2, 3));
    occ.insert((1, 2));
    let mut rng = StdRng::seed_from_u64(7);
    tick_collector_exploring(&mut state, 0, &mut rng, &occ);
    assert_eq!(state.robots[0].position, (3, 2));
    assert_eq!(state.robots[0].state, RobotState::Collecting);
}

#[test]
fn scout_records_stocked_crystal() {
    let mut map = open_map();
    map[2][3] = Terrain::Crystal;
    let r = Robot::new((2, 2), RobotType::Scout, (1, 0));
    let mut state = SimulationState::new(map, (7, 7), vec![r]);
    state.resource_quantities.insert((3, 2), 5);
    let mut occ = PositionSet::new();
    occ.insert((2, 1));
    occ.insert((2, 3));
    occ.insert((1, 2));
    let mut rng = StdRng::seed_from_u64(7);
    tick_scout(&mut state, 0, &mut rng, &occ);
    assert_eq!(state.robots[0].position, (3, 2));
    assert!(state.discovered_crystals.contains(&(3, 2)));
    assert_eq!(state.discovered_energy.len(), 0);
}

#[test]
fn scout_ignores_unstocked_or_collected_cells() {
    let mut map = open_map();
    map[2][3] = Terrain::Crystal;
    let r = Robot::new((2, 2), RobotType::Scout, (1, 0));
    let mut state = SimulationState::new(map, (7, 7), vec![r]);
    state.resource_quantities.insert((3, 2), 0);
    let mut occ = PositionSet::new();
    occ.insert((2, 1));
    occ.insert((2, 3));
    occ.insert((1, 2));
    let mut rng = StdRng::seed_from_u64(7);
    tick_scout(&mut state, 0, &mut rng, &occ);
    assert_eq!(state.robots[0].position, (3, 2));
    assert_eq!(state.discovered_crystals.len(), 0);
}

#[test]
fn tick_robot_treats_other_robots_as_obstacles() {
    let scout = Robot::new((2, 2), RobotType::Scout, (1, 0));
    let blockers = vec![
        Robot::new((3, 2), RobotType::Collector, (1, 0)),
        Robot::new((1, 2), RobotType::Collector, (1, 0)),
        Robot::new((2, 1), RobotType::Collector, (1, 0)),
    ];
    let mut robots = vec![scout];
    robots.extend(blockers);
    let mut state = SimulationState::new(open_map(), (7, 7), robots);
    let mut rng = StdRng::seed_from_u64(3);
    tick_robot(&mut state, 0, &mut rng);
    assert_eq!(state.robots[0].position, (2, 3));
}

#[test]
fn choose_move_takes_first_allowed_candidate() {
    let map = open_map();
    let mut robot = Robot::new((2, 2), RobotType::Scout, (1, 0));
    let mut occ = PositionSet::new();
    occ.insert((3, 2));
    choose_move(&mut robot, &map, 10, 10, (7, 7), &vec![(1, 0), (-1, 0), (0, 1)], &occ);
    assert_eq!(robot.position, (1, 2));
    assert_eq!(robot.preferred_dir, (-1, 0));
}

#[test]
fn choose_move_stays_out_of_base() {
    let map = open_map();
    let mut robot = Robot::new((3, 5), RobotType::Scout, (1, 0));
    let occ = PositionSet::new();
    choose_move(&mut robot, &map, 10, 10, (5, 5), &vec![(1, 0)], &occ);
    assert_eq!(robot.position, (3, 5));
    assert_eq!(robot.preferred_dir, (1, 0));
    let mut inside = Robot::new((4, 5), RobotType::Scout, (1, 0));
    choose_move(&mut inside, &map, 10, 10, (5, 5), &vec![(1, 0)], &occ);
    assert_eq!(inside.position, (5, 5));
}

#[test]
fn move_scout_random_order_varies() {
    // The preferred direction is blocked; which of the three others is taken
    // depends on the shuffle, and all three come up.
    let map = open_map();
    let mut occ = PositionSet::new();
    occ.insert((5, 4));
    let mut rng = StdRng::seed_from_u64(99);
    let mut seen = std::collections::HashSet::new();
    for _ in 0..200 {
        let mut robot = Robot::new((5, 5), RobotType::Scout, (0, -1));
        move_scout(&mut robot, &map, 10, 10, (1, 8), &mut rng, &occ);
        seen.insert(robot.position);
        assert_ne!(robot.position, (5, 4));
    }
    assert!(seen.len() >= 3, "{:?}", seen);
}

#[test]
fn assign_sends_idle_collector_to_nearest_target() {
    let mut map = open_map();
    map[1][1] = Terrain::Crystal;
    map[1][8] = Terrain::Crystal;
    map[8][8] = Terrain::Energy;
    // (x, y) = (8, 1) is the crystal at map[1][8].
    let near = collector_at((7, 2), RobotState::Exploring);
    let busy = collector_at((3, 3), RobotState::ReturningToBase);
    let scout = Robot::new((2, 7), RobotType::Scout, (1, 0));
    let mut state = SimulationState::new(map, (5, 5), vec![near, busy, scout]);
    state.discovered_crystals.insert((1, 1));
    state.discovered_crystals.insert((8, 1));
    state.discovered_energy.insert((8, 8));
    assign_collectors(&mut state);
    assert_eq!(state.robots[0].state, RobotState::MovingToResource);
    assert_eq!(state.robots[0].path.back(), Some(&(8, 1)));
    assert_eq!(state.robots[0].path.len(), 2);
    assert_eq!(state.robots[1].state, RobotState::ReturningToBase);
    assert_eq!(state.robots[2].state, RobotState::Exploring);
}

#[test]
fn assign_never_doubles_up_on_a_target() {
    let mut map = open_map();
    map[2][2] = Terrain::Crystal;
    map[7][7] = Terrain::Crystal;
    let a = collector_at((2, 3), RobotState::Exploring);
    let b = collector_at((3, 2), RobotState::Exploring);
    let c = collector_at((1, 1), RobotState::Exploring);
    let mut state = SimulationState::new(map, (5, 5), vec![a, b, c]);
    state.discovered_crystals.insert((2, 2));
    state.discovered_crystals.insert((7, 7));
    assign_collectors(&mut state);
    assert_eq!(state.robots[0].path.back(), Some(&(2, 2)));
    assert_eq!(state.robots[1].path.back(), Some(&(7, 7)));
    assert_eq!(state.robots[2].state, RobotState::Exploring);
    assert!(state.robots[2].path.is_empty());
}

#[test]
fn assign_skips_targets_already_taken_or_collected() {
    let mut map = open_map();
    map[2][2] = Terrain::Crystal;
    map[2][7] = Terrain::Energy;
    let collecting = collector_at((2, 2), RobotState::Collecting);
    let idle = collector_at((3, 3), RobotState::Exploring);
    let mut state = SimulationState::new(map, (5, 5), vec![collecting, idle]);
    state.discovered_crystals.insert((2, 2));
    state.discovered_energy.insert((2, 7));
    state.collected_energy.insert((2, 7));
    assign_collectors(&mut state);
    assert_eq!(state.robots[1].state, RobotState::Exploring);
    assert!(state.robots[1].path.is_empty());
}

#[test]
fn seeding_stocks_some_resource_cells_only() {
    let mut map = vec![vec![Terrain::Crystal; 60]; 40];
    for y in 0..40 {
        map[y][0] = Terrain::Obstacle;
        map[y][1] = Terrain::Low;
    }
    let mut rng = StdRng::seed_from_u64(42);
    let base = (30, 20);
    let stock = seed_resources(&map, 60, 40, base, &mut rng);
    let n = stock.len();
    // About one cell in ten of the 58 * 40 - 9 eligible ones.
    assert!(n > 100 && n < 400, "{}", n);
    let mut quantities = std::collections::HashSet::new();
    for i in 0..n {
        let ((x, y), q) = stock.entry(i);
        assert!(x >= 2);
        assert!(!((29..=31).contains(&x) && (19..=21).contains(&y)));
        assert!((50..=200).contains(&q));
        quantities.insert(q);
        if i > 0 {
            let ((px, py), _) = stock.entry(i - 1);
            assert!(py < y || (py == y && px < x));
        }
    }
    assert!(quantities.len() > 10);
}

#[test]
fn base_sits_in_the_middle() {
    assert_eq!(base_position(80, 24), (40, 12));
    assert_eq!(base_position(81, 25), (40, 12));
}

#[test]
fn spawn_places_eight_robots_around_base() {
    let robots = spawn_robots((40, 12), 80, 24);
    let expected = [
        ((39, 11), RobotType::Scout, (1, 0)),
        ((40, 11), RobotType::Scout, (0, -1)),
        ((41, 11), RobotType::Scout, (-1, 0)),
        ((39, 12), RobotType::Scout, (0, 1)),
        ((40, 12), RobotType::Collector, (1, 0)),
        ((41, 12), RobotType::Collector, (1, 0)),
        ((39, 13), RobotType::Collector, (-1, 0)),
        ((40, 13), RobotType::Collector, (-1, 0)),
    ];
    assert_eq!(robots.len(), 8);
    for (r, (p, t, d)) in robots.iter().zip(expected.iter()) {
        assert_eq!(r.position, *p);
        assert_eq!(r.robot_type, *t);
        assert_eq!(r.preferred_dir, *d);
        assert_eq!(r.state, RobotState::Exploring);
    }
}

#[test]
fn spawn_is_clamped_off_the_rim() {
    let robots = spawn_robots((1, 1), 3, 3);
    assert!(robots.iter().all(|r| r.position == (1, 1)));
}

#[test]
fn generated_game_is_consistent() {
    let noise = vec![vec![Terrain::Crystal; 50]; 30];
    let mut rng = StdRng::seed_from_u64(5);
    let state = SimulationState::generate(50, 30, &noise, &mut rng);
    assert_eq!(state.base_pos, (25, 15));
    assert_eq!(state.robots.len(), 8);
    assert_eq!(state.map[15][25], Terrain::Low);
    assert!(state.resource_quantities.len() > 0);
    assert_eq!(state.deposited_crystals, 0);
}

#[test]
fn ticks_conserve_resources() {
    // Crystal and energy are neither made nor lost: what is in the ground,
    // carried and deposited keeps its sum while robots work.
    let noise = vec![vec![Terrain::Crystal; 30]; 20];
    let mut rng = StdRng::seed_from_u64(11);
    let mut state = SimulationState::generate(30, 20, &noise, &mut rng);
    let start = total(&state);
    for _ in 0..400 {
        state.tick(&mut rng);
        assert_eq!(total(&state), start);
    }
    assert!(state.deposited_crystals > 0 || state.robots.iter().any(|r| r.carried_crystals > 0));
}

#[test]
fn robots_stay_in_play() {
    let mut noise = vec![vec![Terrain::Low; 40]; 25];
    for y in 0..25 {
        for x in 0..40 {
            if (x * 7 + y * 13) % 5 == 0 {
                noise[y][x] = Terrain::Obstacle;
            } else if (x + y) % 9 == 0 {
                noise[y][x] = Terrain::Energy;
            }
        }
    }
    let mut rng = StdRng::seed_from_u64(17);
    let mut state = SimulationState::generate(40, 25, &noise, &mut rng);
    for _ in 0..300 {
        state.tick(&mut rng);
        for r in &state.robots {
            let (x, y) = r.position;
            assert!((1..=38).contains(&x) && (1..=23).contains(&y));
            assert_ne!(state.map[y as usize][x as usize], Terrain::Obstacle);
        }
    }
}

#[test]
fn collected_cells_stay_empty() {
    let noise = vec![vec![Terrain::Energy; 30]; 20];
    let mut rng = StdRng::seed_from_u64(23);
    let mut state = SimulationState::generate(30, 20, &noise, &mut rng);
    for _ in 0..600 {
        state.tick(&mut rng);
        for i in 0..state.collected_energy.len() {
            let p = state.collected_energy.get(i);
            assert_eq!(state.resource_quantities.get(p), Some(0));
        }
    }
}

#[test]
fn discoveries_name_cells_of_their_kind() {
    let mut noise = vec![vec![Terrain::Low; 40]; 25];
    for y in 0..25 {
        for x in 0..40 {
            noise[y][x] = match (x * 3 + y * 5) % 4 {
                0 => Terrain::Crystal,
                1 => Terrain::Energy,
                _ => Terrain::Mid,
            };
        }
    }
    let mut rng = StdRng::seed_from_u64(29);
    let mut state = SimulationState::generate(40, 25, &noise, &mut rng);
    for _ in 0..300 {
        state.tick(&mut rng);
    }
    assert!(state.discovered_crystals.len() + state.discovered_energy.len() > 0);
    for i in 0..state.discovered_crystals.len() {
        let (x, y) = state.discovered_crystals.get(i);
        assert_eq!(state.map[y as usize][x as usize], Terrain::Crystal);
    }
    for i in 0..state.discovered_energy.len() {
        let (x, y) = state.discovered_energy.get(i);
        assert_eq!(state.map[y as usize][x as usize], Terrain::Energy);
    }
}

#[test]
fn with_resources_accepts_any_totals() {
    let mut heavy = Robot::new((2, 2), RobotType::Collector, (1, 0));
    heavy.carried_crystals = u32::MAX;
    let mut stock = robots_game::collections::ResourceMap::new();
    stock.insert((3, 3), 10);
    let state = SimulationState::with_resources(open_map(), (5, 5), vec![heavy], stock);
    assert_eq!(state.width, 10);
    assert_eq!(state.robots[0].carried_crystals, u32::MAX);
    assert_eq!(state.resource_quantities.get((3, 3)), Some(10));
}

#[test]
fn counters_fit_flags_overflowing_collect_and_deposit() {
    let full = || {
        let mut r = collector_at((3, 3), RobotState::Collecting);
        r.carried_crystals = u32::MAX;
        r
    };
    let mut map = open_map();
    map[3][3] = Terrain::Crystal;
    let mut stock = robots_game::collections::ResourceMap::new();
    stock.insert((3, 3), 5);
    let state = SimulationState::with_resources(map.clone(), (5, 5), vec![full()], stock);
    assert!(!counters_fit(&state, 0));

    let mut empty_cell = robots_game::collections::ResourceMap::new();
    empty_cell.insert((3, 3), 0);
    let state = SimulationState::with_resources(map, (5, 5), vec![full()], empty_cell);
    assert!(counters_fit(&state, 0));

    let mut home = Robot::new((5, 4), RobotType::Collector, (1, 0));
    home.state = RobotState::ReturningToBase;
    home.carried_energy = 3;
    home.path.push_back((5, 5));
    let mut state = SimulationState::new(open_map(), (5, 5), vec![home]);
    state.deposited_energy = u32::MAX - 2;
    assert!(!counters_fit(&state, 0));
    state.deposited_energy = u32::MAX - 3;
    assert!(counters_fit(&state, 0));
}

#[test]
fn collecting_run_takes_one_crystal_per_tick_until_empty() {
    let mut map = open_map();
    map[3][3] = Terrain::Crystal;
    let mut stock = robots_game::collections::ResourceMap::new();
    stock.insert((3, 3), 3);
    let mut robot = collector_at((3, 3), RobotState::Collecting);
    robot.carried_energy = 1;
    let mut state = SimulationState::with_resources(map, (7, 7), vec![robot], stock);
    for i in 1..=3u32 {
        tick_collector_collecting(&mut state, 0);
        assert_eq!(state.robots[0].carried_crystals, i);
        assert_eq!(state.resource_quantities.get((3, 3)), Some(3 - i));
        let expected = if i < 3 { RobotState::Collecting } else { RobotState::ReturningToBase };
        assert_eq!(state.robots[0].state, expected);
    }
}

#[test]
fn round_runs_with_large_deposits_of_both_kinds() {
    let mut home = collector_at((5, 4), RobotState::ReturningToBase);
    home.carried_crystals = 2;
    home.carried_energy = 1;
    home.path.push_back((5, 5));
    let mut state = SimulationState::new(open_map(), (5, 5), vec![home]);
    state.deposited_crystals = 3_000_000_000;
    state.deposited_energy = 2_000_000_000;
    let mut rng = StdRng::seed_from_u64(9);
    state.tick(&mut rng);
    assert_eq!(state.deposited_crystals, 3_000_000_002);
    assert_eq!(state.deposited_energy, 2_000_000_001);
    assert_eq!(state.robots[0].carried_crystals, 0);
}

#[test]
fn move_with_draws_keeps_an_open_preferred_direction() {
    let map = open_map();
    let occ = PositionSet::new();
    let mut robot = Robot::new((4, 4), RobotType::Scout, (1, 0));
    let alternatives = vec![(0, 1), (-1, 0), (0, -1)];
    move_with_draws(&mut robot, &map, 10, 10, (8, 8), None, &alternatives, &occ);
    assert_eq!(robot.position, (5, 4));
    assert_eq!(robot.preferred_dir, (1, 0));
}

#[test]
fn move_with_draws_follows_a_redrawn_direction_then_the_alternatives() {
    let mut map = open_map();
    let occ = PositionSet::new();
    let mut robot = Robot::new((4, 4), RobotType::Scout, (1, 0));
    let alternatives = vec![(0, 1), (-1, 0), (1, 0)];
    move_with_draws(&mut robot, &map, 10, 10, (8, 8), Some(0), &alternatives, &occ);
    assert_eq!(robot.position, (4, 3));
    assert_eq!(robot.preferred_dir, (0, -1));

    map[2][4] = Terrain::Obstacle;
    move_with_draws(&mut robot, &map, 10, 10, (8, 8), Some(0), &alternatives, &occ);
    assert_eq!(robot.position, (4, 4));
    assert_eq!(robot.preferred_dir, (0, 1));
}

#[test]
fn stock_from_draws_gives_each_draw_to_its_cell_in_row_order() {
    let mut map = open_map();
    map[2][3] = Terrain::Crystal;
    map[2][6] = Terrain::Energy;
    map[5][1] = Terrain::Crystal;
    map[7][7] = Terrain::Crystal;
    // (7, 7) lies in the base around (8, 8), so three cells are stockable.
    let draws = vec![Some(50), None, Some(200)];
    let stock = stock_from_draws(&map, 10, 10, (8, 8), &draws);
    assert_eq!(stock.len(), 2);
    assert_eq!(stock.entry(0), ((3, 2), 50));
    assert_eq!(stock.entry(1), ((1, 5), 200));
}

#[test]
fn move_with_draws_takes_a_long_preferred_direction_as_one_clamped_step() {
    let map = open_map();
    let occ = PositionSet::new();
    let mut robot = Robot::new((6, 4), RobotType::Scout, (-3, 0));
    let alternatives = vec![(0, -1), (0, 1), (-1, 0), (1, 0)];
    move_with_draws(&mut robot, &map, 10, 10, (8, 8), None, &alternatives, &occ);
    assert_eq!(robot.position, (3, 4));
    assert_eq!(robot.preferred_dir, (-3, 0));

    let mut robot = Robot::new((2, 4), RobotType::Scout, (-3, 0));
    move_with_draws(&mut robot, &map, 10, 10, (8, 8), None, &alternatives, &occ);
    assert_eq!(robot.position, (1, 4));
}
