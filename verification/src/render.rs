//! What the screen shows: one glyph per map cell, the base and the robots.

use vstd::prelude::*;

use crate::robot::RobotType;
use crate::simulation::SimulationState;
use crate::world::{in_base, is_base_cell, Pos, Terrain};

verus! {

#[derive(Clone, Copy, PartialEq, Eq, Debug, Structural)]
pub enum Color {
    Cyan,
    DarkGray,
    LightMagenta,
    Green,
    White,
    LightYellow,
    LightGreen,
    LightRed,
    Magenta,
}

/// The screen rectangle the world is drawn in.
#[derive(Clone, Copy, PartialEq, Eq, Debug, Structural)]
pub struct Area {
    pub x: u16,
    pub y: u16,
    pub width: u16,
    pub height: u16,
}

/// One screen cell to draw.
#[derive(Clone, Copy, PartialEq, Eq, Debug, Structural)]
pub struct Paint {
    pub x: u16,
    pub y: u16,
    pub symbol: char,
    pub color: Color,
    pub bold: bool,
}

/// What `render_world` draws: the map cells and the base first, the robots
/// last (on top of the text lines drawn in between).
pub struct WorldView {
    pub cells: Vec<Paint>,
    pub robots: Vec<Paint>,
}

/// The glyph of a terrain band.
pub open spec fn terrain_glyph(t: Terrain) -> (char, Color) {
    match t {
        Terrain::Obstacle => ('0', Color::Cyan),
        Terrain::Low => (' ', Color::DarkGray),
        Terrain::Crystal => ('C', Color::LightMagenta),
        Terrain::Mid => (' ', Color::DarkGray),
        Terrain::Energy => ('E', Color::Green),
        Terrain::High => (' ', Color::White),
    }
}

pub fn render_cell(value: Terrain) -> (g: (char, Color))
    ensures
        g == terrain_glyph(value),
{
    match value {
        Terrain::Obstacle => ('0', Color::Cyan),
        Terrain::Low => (' ', Color::DarkGray),
        Terrain::Crystal => ('C', Color::LightMagenta),
        Terrain::Mid => (' ', Color::DarkGray),
        Terrain::Energy => ('E', Color::Green),
        Terrain::High => (' ', Color::White),
    }
}

/// The glyph drawn for map cell `(x, y)` of the area, if any: none on the
/// base, on the area's border or off the map; a blank for a collected cell;
/// `C` and `E` for discovered crystals and energy; the terrain otherwise.
pub open spec fn glyph_at(s: &SimulationState, area: Area, x: int, y: int) -> Option<(char, Color)> {
    let p: Pos = (x as u16, y as u16);
    if in_base(x, y, s.base_pos) || x == 0 || x == area.width - 1 || y == 0 || y == area.height - 1
        || y >= s.height || x >= s.width {
        None
    } else if s.collected_crystals@.contains(p) || s.collected_energy@.contains(p) {
        Some((' ', Color::DarkGray))
    } else if s.discovered_crystals@.contains(p) {
        Some(('C', Color::LightYellow))
    } else if s.discovered_energy@.contains(p) {
        Some(('E', Color::LightGreen))
    } else {
        Some(terrain_glyph(s.map@[y]@[x]))
    }
}

/// The paints of row `y` for the first `n` columns.
pub open spec fn row_paints(s: &SimulationState, area: Area, y: int, n: int) -> Seq<Paint>
    decreases n,
{
    if n <= 0 {
        Seq::empty()
    } else {
        let prev = row_paints(s, area, y, n - 1);
        match glyph_at(s, area, n - 1, y) {
            Some(g) => prev.push(
                Paint {
                    x: (area.x + n - 1) as u16,
                    y: (area.y + y) as u16,
                    symbol: g.0,
                    color: g.1,
                    bold: false,
                },
            ),
            None => prev,
        }
    }
}

/// The paints of the first `m` rows, row by row.
pub open spec fn grid_paints(s: &SimulationState, area: Area, m: int) -> Seq<Paint>
    decreases m,
{
    if m <= 0 {
        Seq::empty()
    } else {
        grid_paints(s, area, m - 1) + row_paints(s, area, m - 1, area.width as int)
    }
}

/// Paint `c` is the glyph of map cell `(x, y)` drawn at its place in the area.
pub open spec fn drawn_from(c: Paint, s: &SimulationState, area: Area, x: int, y: int) -> bool {
    &&& c.x == area.x + x
    &&& c.y == area.y + y
    &&& glyph_at(s, area, x, y) == Some((c.symbol, c.color))
    &&& !c.bold
}

/// Paint `c` is the glyph of some cell of row `y` among the first `n` columns.
pub open spec fn from_row(c: Paint, s: &SimulationState, area: Area, y: int, n: int) -> bool {
    exists|x: int| 0 <= x < n && #[trigger] drawn_from(c, s, area, x, y)
}

/// Paint `c` is the glyph of some cell among the first `m` rows.
pub open spec fn from_grid(c: Paint, s: &SimulationState, area: Area, m: int) -> bool {
    exists|x: int, y: int| 0 <= x < area.width && 0 <= y < m && #[trigger] drawn_from(c, s, area, x, y)
}

/// Some paint of `ps` is the glyph of cell `(x, y)`.
pub open spec fn paints_cell(ps: Seq<Paint>, s: &SimulationState, area: Area, x: int, y: int) -> bool {
    exists|i: int| 0 <= i < ps.len() && #[trigger] drawn_from(ps[i], s, area, x, y)
}

proof fn lemma_row_paints(s: &SimulationState, area: Area, y: int, n: int)
    requires
        0 <= n <= area.width,
        0 <= y < area.height,
        area.x + area.width <= u16::MAX,
        area.y + area.height <= u16::MAX,
    ensures
        forall|i: int|
            0 <= i < row_paints(s, area, y, n).len() ==> from_row(#[trigger] row_paints(s, area, y, n)[i], s, area, y, n),
        forall|x: int|
            0 <= x < n && (#[trigger] glyph_at(s, area, x, y)) is Some ==> paints_cell(
                row_paints(s, area, y, n),
                s,
                area,
                x,
                y,
            ),
    decreases n,
{
    if n > 0 {
        lemma_row_paints(s, area, y, n - 1);
        let prev = row_paints(s, area, y, n - 1);
        let cur = row_paints(s, area, y, n);
        assert forall|i: int| 0 <= i < cur.len() implies from_row(#[trigger] cur[i], s, area, y, n) by {
            if i < prev.len() {
                assert(cur[i] == prev[i]);
                assert(from_row(prev[i], s, area, y, n - 1));
                let x = choose|x: int| 0 <= x < n - 1 && #[trigger] drawn_from(prev[i], s, area, x, y);
                assert(drawn_from(cur[i], s, area, x, y));
            } else {
                assert(drawn_from(cur[i], s, area, n - 1, y));
            }
        }
        assert forall|x: int| 0 <= x < n && (#[trigger] glyph_at(s, area, x, y)) is Some implies paints_cell(
            cur,
            s,
            area,
            x,
            y,
        ) by {
            if x < n - 1 {
                assert(paints_cell(prev, s, area, x, y));
                let i = choose|i: int| 0 <= i < prev.len() && #[trigger] drawn_from(prev[i], s, area, x, y);
                assert(cur[i] == prev[i]);
                assert(drawn_from(cur[i], s, area, x, y));
            } else {
                assert(drawn_from(cur[prev.len() as int], s, area, x, y));
            }
        }
    }
}

proof fn lemma_grid_paints(s: &SimulationState, area: Area, m: int)
    requires
        0 <= m <= area.height,
        area.x + area.width <= u16::MAX,
        area.y + area.height <= u16::MAX,
    ensures
        forall|i: int|
            0 <= i < grid_paints(s, area, m).len() ==> from_grid(#[trigger] grid_paints(s, area, m)[i], s, area, m),
        forall|x: int, y: int|
            0 <= x < area.width && 0 <= y < m && (#[trigger] glyph_at(s, area, x, y)) is Some ==> paints_cell(
                grid_paints(s, area, m),
                s,
                area,
                x,
                y,
            ),
    decreases m,
{
    if m > 0 {
        lemma_grid_paints(s, area, m - 1);
        lemma_row_paints(s, area, m - 1, area.width as int);
        let prev = grid_paints(s, area, m - 1);
        let row = row_paints(s, area, m - 1, area.width as int);
        let cur = grid_paints(s, area, m);
        assert(cur == prev + row);
        assert forall|i: int| 0 <= i < cur.len() implies from_grid(#[trigger] cur[i], s, area, m) by {
            if i < prev.len() {
                assert(cur[i] == prev[i]);
                assert(from_grid(prev[i], s, area, m - 1));
                let (x, y) = choose|x: int, y: int|
                    0 <= x < area.width && 0 <= y < m - 1 && #[trigger] drawn_from(prev[i], s, area, x, y);
                assert(drawn_from(cur[i], s, area, x, y));
            } else {
                assert(cur[i] == row[i - prev.len()]);
                assert(from_row(row[i - prev.len()], s, area, m - 1, area.width as int));
                let x = choose|x: int|
                    0 <= x < area.width && #[trigger] drawn_from(row[i - prev.len()], s, area, x, m - 1);
                assert(drawn_from(cur[i], s, area, x, m - 1));
            }
        }
        assert forall|x: int, y: int|
            0 <= x < area.width && 0 <= y < m && (#[trigger] glyph_at(s, area, x, y)) is Some implies paints_cell(
            cur,
            s,
            area,
            x,
            y,
        ) by {
            if y < m - 1 {
                assert(paints_cell(prev, s, area, x, y));
                let i = choose|i: int| 0 <= i < prev.len() && #[trigger] drawn_from(prev[i], s, area, x, y);
                assert(cur[i] == prev[i]);
                assert(drawn_from(cur[i], s, area, x, y));
            } else {
                assert(paints_cell(row, s, area, x, y));
                let i = choose|i: int| 0 <= i < row.len() && #[trigger] drawn_from(row[i], s, area, x, y);
                assert(cur[prev.len() + i] == row[i]);
                assert(drawn_from(cur[prev.len() + i], s, area, x, y));
            }
        }
    }
}

/// In the drawn grid, every collected cell, crystal or energy, is painted as
/// a blank in dark grey whatever the discovered sets hold; and every collected
/// cell of the map inside the area, off the base and the area's border, is
/// painted so.
pub proof fn lemma_collected_drawn_blank(s: &SimulationState, area: Area)
    requires
        area.x + area.width <= u16::MAX,
        area.y + area.height <= u16::MAX,
    ensures
        forall|i: int|
            0 <= i < grid_paints(s, area, area.height as int).len() ==> {
                let c = #[trigger] grid_paints(s, area, area.height as int)[i];
                let p: Pos = ((c.x - area.x) as u16, (c.y - area.y) as u16);
                s.collected_crystals@.contains(p) || s.collected_energy@.contains(p) ==> c.symbol == ' '
                    && c.color == Color::DarkGray
            },
        forall|x: int, y: int|
            0 < x < area.width - 1 && 0 < y < area.height - 1 && x < s.width && y < s.height && !in_base(
                x,
                y,
                s.base_pos,
            ) && (s.collected_crystals@.contains((x as u16, y as u16)) || s.collected_energy@.contains(
                (x as u16, y as u16),
            )) ==> exists|i: int|
                0 <= i < grid_paints(s, area, area.height as int).len() && #[trigger] grid_paints(
                    s,
                    area,
                    area.height as int,
                )[i] == (Paint {
                    x: (area.x + x) as u16,
                    y: (area.y + y) as u16,
                    symbol: ' ',
                    color: Color::DarkGray,
                    bold: false,
                }),
{
    let h = area.height as int;
    lemma_grid_paints(s, area, h);
    let g = grid_paints(s, area, h);
    assert forall|i: int| 0 <= i < g.len() implies {
        let c = #[trigger] g[i];
        let p: Pos = ((c.x - area.x) as u16, (c.y - area.y) as u16);
        s.collected_crystals@.contains(p) || s.collected_energy@.contains(p) ==> c.symbol == ' ' && c.color
            == Color::DarkGray
    } by {
        assert(from_grid(g[i], s, area, h));
        let (x, y) = choose|x: int, y: int| 0 <= x < area.width && 0 <= y < h && #[trigger] drawn_from(g[i], s, area, x, y);
        assert(((g[i].x - area.x) as u16, (g[i].y - area.y) as u16) == (x as u16, y as u16));
    }
    assert forall|x: int, y: int|
        0 < x < area.width - 1 && 0 < y < area.height - 1 && x < s.width && y < s.height && !in_base(
            x,
            y,
            s.base_pos,
        ) && (s.collected_crystals@.contains((x as u16, y as u16)) || s.collected_energy@.contains(
            (x as u16, y as u16),
        )) implies exists|i: int|
        0 <= i < g.len() && #[trigger] g[i] == (Paint {
            x: (area.x + x) as u16,
            y: (area.y + y) as u16,
            symbol: ' ',
            color: Color::DarkGray,
            bold: false,
        }) by {
        assert(glyph_at(s, area, x, y) == Some((' ', Color::DarkGray)));
        assert(paints_cell(g, s, area, x, y));
        let i = choose|i: int| 0 <= i < g.len() && #[trigger] drawn_from(g[i], s, area, x, y);
        assert(g[i] == (Paint {
            x: (area.x + x) as u16,
            y: (area.y + y) as u16,
            symbol: ' ',
            color: Color::DarkGray,
            bold: false,
        }));
    }
}

/// The base tiles of row `row` (0 to 2) for the first `n` columns, those
/// falling inside the area.
pub open spec fn base_row(pos: Pos, area: Area, row: int, n: int) -> Seq<Paint>
    decreases n,
{
    if n <= 0 {
        Seq::empty()
    } else {
        let prev = base_row(pos, area, row, n - 1);
        let y = area.y + pos.1 + row - 1;
        let x = area.x + pos.0 + (n - 1) - 1;
        if area.y <= y < area.y + area.height && area.x <= x < area.x + area.width {
            prev.push(Paint { x: x as u16, y: y as u16, symbol: '#', color: Color::Green, bold: true })
        } else {
            prev
        }
    }
}

/// The base tiles of the first `m` rows.
pub open spec fn base_paints(pos: Pos, area: Area, m: int) -> Seq<Paint>
    decreases m,
{
    if m <= 0 {
        Seq::empty()
    } else {
        base_paints(pos, area, m - 1) + base_row(pos, area, m - 1, 3)
    }
}

/// The paint of a robot standing on `p`.
pub open spec fn robot_paint(area: Area, p: Pos, t: RobotType) -> Paint {
    Paint {
        x: (area.x + p.0) as u16,
        y: (area.y + p.1) as u16,
        symbol: if t == RobotType::Scout {
            'x'
        } else {
            'o'
        },
        color: if t == RobotType::Scout {
            Color::LightRed
        } else {
            Color::Magenta
        },
        bold: true,
    }
}

/// The 3x3 block of `#` tiles of the base centred on `pos`, clipped to the area.
pub fn render_base(pos: (u16, u16), area: Area) -> (tiles: Vec<Paint>)
    requires
        area.y + pos.1 >= 1,
        area.y + pos.1 + 2 <= u16::MAX,
        area.x + pos.0 >= 1,
        area.x + pos.0 + 2 <= u16::MAX,
        area.y + area.height <= u16::MAX,
        area.x + area.width <= u16::MAX,
    ensures
        tiles@ == base_paints(pos, area, 3),
{
    let mut tiles: Vec<Paint> = Vec::new();
    let mut row: u16 = 0;
    while row < 3
        invariant
            row <= 3,
            area.y + pos.1 >= 1,
            area.y + pos.1 + 2 <= u16::MAX,
            area.x + pos.0 >= 1,
            area.x + pos.0 + 2 <= u16::MAX,
            area.y + area.height <= u16::MAX,
            area.x + area.width <= u16::MAX,
            tiles@ == base_paints(pos, area, row as int),
        decreases 3 - row,
    {
        let y = area.y + pos.1 + row - 1;
        let x = area.x + pos.0;
        let ghost t0 = tiles@;
        if y < area.y || y >= area.y + area.height {
            assert(base_row(pos, area, row as int, 3) == Seq::<Paint>::empty()) by {
                reveal_with_fuel(base_row, 4);
            }
        } else {
            let mut col: u16 = 0;
            while col < 3
                invariant
                    col <= 3,
                    row < 3,
                    y == area.y + pos.1 + row - 1,
                    x == area.x + pos.0,
                    area.y <= y < area.y + area.height,
                    area.x + pos.0 >= 1,
                    area.x + pos.0 + 2 <= u16::MAX,
                    area.x + area.width <= u16::MAX,
                    tiles@ == t0 + base_row(pos, area, row as int, col as int),
                decreases 3 - col,
            {
                let cx = x + col - 1;
                if cx >= area.x && cx < area.x + area.width {
                    tiles.push(Paint { x: cx, y, symbol: '#', color: Color::Green, bold: true });
                }
                col += 1;
            }
        }
        row += 1;
    }
    tiles
}

/// The screen contents for `state` in `area`.
#[verifier::rlimit(40)]
pub fn render_world(state: &SimulationState, area: Area) -> (view: WorldView)
    requires
        state.shape_ok(),
        area.y + area.height <= u16::MAX,
        area.x + area.width <= u16::MAX,
        area.y + state.base_pos.1 >= 1,
        area.y + state.base_pos.1 + 2 <= u16::MAX,
        area.x + state.base_pos.0 >= 1,
        area.x + state.base_pos.0 + 2 <= u16::MAX,
        forall|i: int|
            0 <= i < state.robots@.len() ==> area.x + (#[trigger] state.robots@[i]).position.0 <= u16::MAX
                && area.y + state.robots@[i].position.1 <= u16::MAX,
    ensures
        view.cells@ == grid_paints(state, area, area.height as int) + base_paints(state.base_pos, area, 3),
        view.robots@.len() == state.robots@.len(),
        forall|i: int|
            0 <= i < state.robots@.len() ==> #[trigger] view.robots@[i] == robot_paint(
                area,
                state.robots@[i].position,
                state.robots@[i].robot_type,
            ),
{
    let mut cells: Vec<Paint> = Vec::new();
    let h = area.height as usize;
    let w = area.width as usize;
    let mut y: usize = 0;
    while y < h
        invariant
            state.shape_ok(),
            h == area.height,
            w == area.width,
            y <= h,
            area.y + area.height <= u16::MAX,
            area.x + area.width <= u16::MAX,
            cells@ == grid_paints(state, area, y as int),
        decreases h - y,
    {
        let ghost c0 = cells@;
        let mut x: usize = 0;
        while x < w
            invariant
                state.shape_ok(),
                h == area.height,
                w == area.width,
                y < h,
                x <= w,
                area.y + area.height <= u16::MAX,
                area.x + area.width <= u16::MAX,
                cells@ == c0 + row_paints(state, area, y as int, x as int),
            decreases w - x,
        {
            let p: Pos = (x as u16, y as u16);
            let skip = is_base_cell(x as u16, y as u16, state.base_pos) || x == 0 || x == w - 1 || y == 0
                || y == h - 1 || y >= state.height || x >= state.width;
            if !skip {
                let g = if state.collected_crystals.contains(&p) || state.collected_energy.contains(&p) {
                    (' ', Color::DarkGray)
                } else if state.discovered_crystals.contains(&p) {
                    ('C', Color::LightYellow)
                } else if state.discovered_energy.contains(&p) {
                    ('E', Color::LightGreen)
                } else {
                    render_cell(state.map[y][x])
                };
                cells.push(
                    Paint {
                        x: area.x + x as u16,
                        y: area.y + y as u16,
                        symbol: g.0,
                        color: g.1,
                        bold: false,
                    },
                );
            }
            x += 1;
        }
        y += 1;
    }
    let base = render_base(state.base_pos, area);
    let mut k: usize = 0;
    let nb = base.len();
    while k < nb
        invariant
            nb == base@.len(),
            k <= nb,
            cells@ == grid_paints(state, area, area.height as int) + base@.take(k as int),
        decreases nb - k,
    {
        cells.push(base[k]);
        assert(base@.take(k + 1) == base@.take(k as int).push(base@[k as int]));
        k += 1;
    }
    assert(base@.take(nb as int) == base@);

    let mut robots: Vec<Paint> = Vec::new();
    let n = state.robots.len();
    let mut i: usize = 0;
    while i < n
        invariant
            n == state.robots@.len(),
            i <= n,
            robots@.len() == i,
            forall|i: int|
                0 <= i < state.robots@.len() ==> area.x + (#[trigger] state.robots@[i]).position.0 <= u16::MAX
                    && area.y + state.robots@[i].position.1 <= u16::MAX,
            forall|j: int|
                0 <= j < i ==> #[trigger] robots@[j] == robot_paint(
                    area,
                    state.robots@[j].position,
                    state.robots@[j].robot_type,
                ),
        decreases n - i,
    {
        let (rx, ry) = state.robots[i].position;
        let scout = state.robots[i].robot_type == RobotType::Scout;
        robots.push(
            Paint {
                x: area.x + rx,
                y: area.y + ry,
                symbol: if scout {
                    'x'
                } else {
                    'o'
                },
                color: if scout {
                    Color::LightRed
                } else {
                    Color::Magenta
                },
                bold: true,
            },
        );
        i += 1;
    }
    WorldView { cells, robots }
}

} // verus!
