use robots_game::collections::PositionSet;
use robots_game::pathfinding::bfs;
use robots_game::world::Terrain;

fn open_map(w: usize, h: usize) -> Vec<Vec<Terrain>> {
    vec![vec![Terrain::Low; w]; h]
}

fn is_unit_step(a: (u16, u16), b: (u16, u16)) -> bool {
    let dx = (a.0 as i32 - b.0 as i32).abs();
    let dy = (a.1 as i32 - b.1 as i32).abs();
    dx + dy == 1
}

#[test]
fn bfs_finds_shortest_path_in_open_field() {
    let map = open_map(10, 10);
    let e = PositionSet::new();
    let path = bfs(&map, &e, &e, (1, 1), (4, 3), 10, 10, (8, 8));
    assert_eq!(path.len(), 5);
    assert_eq!(*path.back().unwrap(), (4, 3));
    let mut prev = (1, 1);
    for &c in &path {
        assert!(is_unit_step(prev, c));
        prev = c;
    }
}

#[test]
fn bfs_same_cell_is_empty() {
    let map = open_map(10, 10);
    let e = PositionSet::new();
    assert!(bfs(&map, &e, &e, (3, 3), (3, 3), 10, 10, (8, 8)).is_empty());
}

#[test]
fn bfs_goes_around_a_wall() {
    let mut map = open_map(10, 10);
    for y in 1..8 {
        map[y][4] = Terrain::Obstacle;
    }
    let e = PositionSet::new();
    let path = bfs(&map, &e, &e, (2, 2), (6, 2), 10, 10, (8, 8));
    // down to row 8, across, and back up: 6 + 4 + 6
    assert_eq!(path.len(), 16);
    assert!(path.iter().all(|&(x, y)| map[y as usize][x as usize] != Terrain::Obstacle));
}

#[test]
fn bfs_unreachable_is_empty() {
    let mut map = open_map(10, 10);
    for y in 1..9 {
        map[y][4] = Terrain::Obstacle;
    }
    let e = PositionSet::new();
    assert!(bfs(&map, &e, &e, (2, 2), (6, 2), 10, 10, (8, 8)).is_empty());
}

#[test]
fn bfs_avoids_base_unless_heading_there() {
    let map = open_map(10, 10);
    let e = PositionSet::new();
    // Straight line from (2,5) to (8,5) crosses the base around (5,5).
    let around = bfs(&map, &e, &e, (2, 5), (8, 5), 10, 10, (5, 5));
    assert_eq!(around.len(), 10);
    assert!(around.iter().all(|&(x, y)| !((4..=6).contains(&x) && (4..=6).contains(&y))));
    let home = bfs(&map, &e, &e, (2, 5), (5, 5), 10, 10, (5, 5));
    assert_eq!(home.len(), 3);
    assert_eq!(*home.back().unwrap(), (5, 5));
}

#[test]
fn bfs_obstacle_target_is_unreachable() {
    let mut map = open_map(10, 10);
    map[3][3] = Terrain::Obstacle;
    let e = PositionSet::new();
    assert!(bfs(&map, &e, &e, (1, 1), (3, 3), 10, 10, (8, 8)).is_empty());
}

#[test]
fn bfs_prefers_moves_in_order_up_down_left_right() {
    let map = open_map(10, 10);
    let e = PositionSet::new();
    let path = bfs(&map, &e, &e, (2, 2), (4, 4), 10, 10, (8, 8));
    let cells: Vec<(u16, u16)> = path.into_iter().collect();
    assert_eq!(cells, vec![(2, 3), (2, 4), (3, 4), (4, 4)]);

    let path = bfs(&map, &e, &e, (4, 4), (2, 2), 10, 10, (8, 8));
    let cells: Vec<(u16, u16)> = path.into_iter().collect();
    assert_eq!(cells, vec![(4, 3), (4, 2), (3, 2), (2, 2)]);
}

#[test]
fn bfs_ignores_the_collected_sets() {
    let map = open_map(10, 10);
    let e = PositionSet::new();
    let mut c = PositionSet::new();
    c.insert((2, 3));
    c.insert((3, 3));
    let a: Vec<(u16, u16)> = bfs(&map, &e, &e, (2, 2), (4, 4), 10, 10, (8, 8)).into_iter().collect();
    let b: Vec<(u16, u16)> = bfs(&map, &c, &c, (2, 2), (4, 4), 10, 10, (8, 8)).into_iter().collect();
    assert_eq!(a, b);
}
