use rand::rngs::StdRng;
use rand::SeedableRng;

use robots_game::collections::PositionSet;
use robots_game::robot::{move_scout, Robot, RobotState, RobotType};
use robots_game::simulation::SimulationState;
use robots_game::world::{generate_map, Terrain};

fn setup_test_map() -> Vec<Vec<Terrain>> {
    vec![vec![Terrain::Low; 10]; 10]
}

#[test]
fn test_safe_spawn_zone() {
    // Whatever the noise says, the zone around the centre is plain ground.
    let noise = vec![vec![Terrain::Obstacle; 40]; 40];
    let map = generate_map(40, 40, &noise);
    for y in 5..=35 {
        for x in 5..=35 {
            let dx = x as i32 - 20;
            let dy = y as i32 - 20;
            if dx.abs().max(dy.abs()) <= 3 {
                assert_eq!(map[y][x], Terrain::Low, "Obstacle or resource in safe zone at ({}, {})", x, y);
            }
        }
    }
}

#[test]
fn test_scout_movement() {
    let map = setup_test_map();
    let base_pos = (5, 5);
    let mut robot = Robot::new((2, 2), RobotType::Scout, (1, 0));
    let mut rng = StdRng::seed_from_u64(1234);
    let occupied = PositionSet::new();

    move_scout(&mut robot, &map, 10, 10, base_pos, &mut rng, &occupied);

    let (x, y) = robot.position;
    let dx = (x as i16 - 2).abs();
    let dy = (y as i16 - 2).abs();
    assert_eq!(dx + dy, 1, "Scout must move exactly one tile orthogonally");
}

#[test]
fn test_collector_collecting_state() {
    let mut map = setup_test_map();
    map[2][3] = Terrain::Crystal; // crystal tile
    let base_pos = (5, 5);

    let mut robot = Robot::new((3, 2), RobotType::Collector, (0, 0));
    robot.state = RobotState::Collecting;

    let robots = vec![robot];
    let mut state = SimulationState::new(map, base_pos, robots);
    state.resource_quantities.insert((3, 2), 2);

    let mut rng = StdRng::seed_from_u64(1234);

    state.tick(&mut rng);
    assert_eq!(state.robots[0].carried_crystals, 1);
    assert_eq!(state.resource_quantities.get((3, 2)).unwrap(), 1);
    assert_eq!(state.robots[0].state, RobotState::Collecting);
    assert!(!state.collected_crystals.contains(&(3, 2)));

    state.tick(&mut rng);
    assert_eq!(state.robots[0].carried_crystals, 2);
    assert_eq!(state.resource_quantities.get((3, 2)).unwrap(), 0);
    assert_eq!(state.robots[0].state, RobotState::ReturningToBase);
    assert!(state.collected_crystals.contains(&(3, 2)));
}

#[test]
fn test_collector_deposit_at_base() {
    let map = setup_test_map();
    let base_pos = (5, 5);

    let mut robot = Robot::new((5, 5), RobotType::Collector, (0, 0));
    robot.carried_crystals = 3;
    robot.carried_energy = 2;
    robot.state = RobotState::ReturningToBase;
    robot.path = std::collections::VecDeque::from(vec![(5, 5)]);

    let robots = vec![robot];
    let mut state = SimulationState::new(map, base_pos, robots);

    let mut rng = StdRng::seed_from_u64(1234);
    state.tick(&mut rng);

    assert_eq!(state.deposited_crystals, 3);
    assert_eq!(state.deposited_energy, 2);
    assert_eq!(state.robots[0].carried_crystals, 0);
    assert_eq!(state.robots[0].carried_energy, 0);
    assert_eq!(state.robots[0].state, RobotState::Exploring);
}

#[test]
fn test_collector_returning_does_not_collect() {
    // A collector in ReturningToBase should not pick up resources along the way.
    let mut map = setup_test_map();
    map[5][4] = Terrain::Crystal; // crystal at (4,5)

    let base_pos = (5, 5);
    let mut robot = Robot::new((3, 5), RobotType::Collector, (0, 0));
    robot.carried_crystals = 1;
    robot.state = RobotState::ReturningToBase;
    robot.path = std::collections::VecDeque::from(vec![(4, 5), (5, 5)]);

    let robots = vec![robot];
    let mut state = SimulationState::new(map, base_pos, robots);
    state.resource_quantities.insert((4, 5), 50);
    let mut rng = StdRng::seed_from_u64(1234);

    state.tick(&mut rng);

    // Robot moves to (4,5) but doesn't collect the crystal there
    assert_eq!(state.robots[0].position, (4, 5));
    assert_eq!(state.robots[0].carried_crystals, 1);
    assert!(!state.collected_crystals.contains(&(4, 5)));
}

#[test]
fn test_scout_avoids_occupied_positions() {
    let map = setup_test_map();
    let base_pos = (5, 5);
    let mut robot = Robot::new((2, 2), RobotType::Scout, (1, 0));
    let mut rng = StdRng::seed_from_u64(1234);

    // Block all directions except one
    let mut occupied = PositionSet::new();
    occupied.insert((3, 2)); // right
    occupied.insert((1, 2)); // left
    occupied.insert((2, 1)); // up

    move_scout(&mut robot, &map, 10, 10, base_pos, &mut rng, &occupied);

    // Should move down to (2, 3) — the only unoccupied direction
    assert_eq!(robot.position, (2, 3));
}
