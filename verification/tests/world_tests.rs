use robots_game::collections::{PositionSet, ResourceMap};
use robots_game::world::{
    clamped_step, direction, generate_map, is_base_cell, is_crystal, is_energy, is_obstacle,
    map_value, Terrain,
};

#[test]
fn base_cell_is_three_by_three() {
    for x in 0..10u16 {
        for y in 0..10u16 {
            let expected = (4..=6).contains(&x) && (4..=6).contains(&y);
            assert_eq!(is_base_cell(x, y, (5, 5)), expected, "({}, {})", x, y);
        }
    }
}

#[test]
fn base_cell_at_origin_saturates() {
    assert!(is_base_cell(0, 0, (0, 0)));
    assert!(is_base_cell(1, 1, (0, 0)));
    assert!(!is_base_cell(2, 0, (0, 0)));
}

#[test]
fn map_value_wraps_around() {
    let mut map = vec![vec![Terrain::Low; 4]; 3];
    map[1][2] = Terrain::Crystal;
    map[0][0] = Terrain::Obstacle;
    map[2][3] = Terrain::Energy;
    assert_eq!(map_value(&map, 2, 1), Terrain::Crystal);
    assert_eq!(map_value(&map, 6, 4), Terrain::Crystal);
    assert!(is_obstacle(&map, 4, 3));
    assert!(is_crystal(&map, 2, 1));
    assert!(!is_crystal(&map, 2, 2));
    assert!(is_energy(&map, 3, 2));
    assert!(is_energy(&map, 7, 5));
}

#[test]
fn clamped_step_stays_inside_rim() {
    assert_eq!(clamped_step(1, -1, 10), 1);
    assert_eq!(clamped_step(8, 1, 10), 8);
    assert_eq!(clamped_step(5, 1, 10), 6);
    assert_eq!(clamped_step(5, -1, 10), 4);
    assert_eq!(clamped_step(0, 0, 10), 1);
    assert_eq!(clamped_step(20, 0, 10), 8);
}

#[test]
fn directions_in_order() {
    assert_eq!(direction(0), (0, -1));
    assert_eq!(direction(1), (0, 1));
    assert_eq!(direction(2), (-1, 0));
    assert_eq!(direction(3), (1, 0));
}

#[test]
fn generate_map_keeps_noise_outside_safe_zone() {
    let noise = vec![vec![Terrain::High; 20]; 12];
    let map = generate_map(20, 12, &noise);
    assert_eq!(map.len(), 12);
    assert!(map.iter().all(|r| r.len() == 20));
    // centre (10, 6): zone is x in 7..=13, y in 3..=9
    assert_eq!(map[3][7], Terrain::Low);
    assert_eq!(map[9][13], Terrain::Low);
    assert_eq!(map[2][10], Terrain::High);
    assert_eq!(map[6][14], Terrain::High);
    assert_eq!(map[6][6], Terrain::High);
}

#[test]
fn position_set_keeps_first_insertion() {
    let mut s = PositionSet::new();
    assert!(s.insert((1, 2)));
    assert!(s.insert((3, 4)));
    assert!(!s.insert((1, 2)));
    assert_eq!(s.len(), 2);
    assert_eq!(s.get(0), (1, 2));
    assert_eq!(s.get(1), (3, 4));
    assert!(s.contains(&(3, 4)));
    assert!(!s.contains(&(4, 3)));
}

#[test]
fn resource_map_insert_replaces_in_place() {
    let mut m = ResourceMap::new();
    assert_eq!(m.insert((1, 1), 5), None);
    assert_eq!(m.insert((2, 2), 7), None);
    assert_eq!(m.insert((1, 1), 9), Some(5));
    assert_eq!(m.len(), 2);
    assert_eq!(m.get((1, 1)), Some(9));
    assert_eq!(m.get((2, 2)), Some(7));
    assert_eq!(m.get((3, 3)), None);
    assert_eq!(m.entry(0), ((1, 1), 9));
}
