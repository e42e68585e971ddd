use robots_game::render::{render_base, render_cell, render_world, Area, Color};
use robots_game::robot::{Robot, RobotType};
use robots_game::simulation::SimulationState;
use robots_game::world::Terrain;

#[test]
fn terrain_glyphs() {
    assert_eq!(render_cell(Terrain::Obstacle), ('0', Color::Cyan));
    assert_eq!(render_cell(Terrain::Low), (' ', Color::DarkGray));
    assert_eq!(render_cell(Terrain::Crystal), ('C', Color::LightMagenta));
    assert_eq!(render_cell(Terrain::Mid), (' ', Color::DarkGray));
    assert_eq!(render_cell(Terrain::Energy), ('E', Color::Green));
    assert_eq!(render_cell(Terrain::High), (' ', Color::White));
}

#[test]
fn base_block_is_clipped_to_area() {
    let area = Area { x: 0, y: 0, width: 10, height: 10 };
    let full = render_base((5, 5), area);
    assert_eq!(full.len(), 9);
    assert!(full.iter().all(|p| p.symbol == '#' && p.color == Color::Green && p.bold));
    assert_eq!((full[0].x, full[0].y), (4, 4));
    assert_eq!((full[8].x, full[8].y), (6, 6));
    let corner = render_base((9, 9), area);
    assert_eq!(corner.len(), 4);
}

#[test]
fn world_view_shows_cells_base_and_robots() {
    let mut map = vec![vec![Terrain::Low; 8]; 6];
    map[1][1] = Terrain::Obstacle;
    map[1][2] = Terrain::Crystal;
    map[4][1] = Terrain::Energy;
    let robots = vec![
        Robot::new((2, 4), RobotType::Scout, (1, 0)),
        Robot::new((6, 1), RobotType::Collector, (1, 0)),
    ];
    let mut state = SimulationState::new(map, (5, 3), robots);
    state.discovered_energy.insert((1, 4));
    let area = Area { x: 0, y: 0, width: 8, height: 6 };
    let view = render_world(&state, area);
    let at = |x: u16, y: u16| view.cells.iter().find(|p| p.x == x && p.y == y).copied();
    assert_eq!(at(1, 1).map(|p| (p.symbol, p.color)), Some(('0', Color::Cyan)));
    assert_eq!(at(2, 1).map(|p| (p.symbol, p.color)), Some(('C', Color::LightMagenta)));
    assert_eq!(at(1, 4).map(|p| (p.symbol, p.color)), Some(('E', Color::LightGreen)));
    assert!(at(0, 2).is_none());
    assert_eq!(at(5, 3).map(|p| p.symbol), Some('#'));
    // Interior cells 6 x 4 = 24, minus the 3 x 3 base block, plus its 9 tiles.
    assert_eq!(view.cells.len(), 24 - 9 + 9);
    assert_eq!(view.robots.len(), 2);
    assert_eq!((view.robots[0].x, view.robots[0].y, view.robots[0].symbol), (2, 4, 'x'));
    assert_eq!(view.robots[1].color, Color::Magenta);
    assert!(view.robots.iter().all(|p| p.bold));
}
