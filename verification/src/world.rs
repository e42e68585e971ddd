//! The terrain map and the geometry shared by every part of the simulation.

use vstd::prelude::*;

verus! {

/// The class of a map cell, from lowest to highest terrain.
///
/// `Obstacle` cells cannot be entered, `Crystal` and `Energy` cells may hold
/// resources; the three other bands are free ground that is only drawn
/// differently.
#[derive(Clone, Copy, PartialEq, Eq, Debug, Structural)]
pub enum Terrain {
    Obstacle,
    Low,
    Crystal,
    Mid,
    Energy,
    High,
}

/// A map cell coordinate `(x, y)`.
pub type Pos = (u16, u16);

/// `map_value` can read the cell that `(x, y)` wraps around to.
pub open spec fn cell_defined(map: &Vec<Vec<Terrain>>, x: int, y: int) -> bool {
    &&& map@.len() > 0
    &&& map@[0]@.len() > 0
    &&& x >= 0 && y >= 0
    &&& map@[y % (map@.len() as int)]@.len() > x % (map@[0]@.len() as int)
}

/// A non-empty rectangular grid.
pub open spec fn grid_wf(map: &Vec<Vec<Terrain>>) -> bool {
    &&& map@.len() > 0
    &&& map@[0]@.len() > 0
    &&& forall|i: int| 0 <= i < map@.len() ==> #[trigger] map@[i]@.len() == map@[0]@.len()
}

/// The terrain found at `(x, y)`, coordinates wrapping around the grid.
pub open spec fn terrain_at(map: &Vec<Vec<Terrain>>, x: int, y: int) -> Terrain {
    map@[y % (map@.len() as int)]@[x % (map@[0]@.len() as int)]
}

pub proof fn lemma_grid_cell_defined(map: &Vec<Vec<Terrain>>, x: int, y: int)
    requires
        grid_wf(map),
        x >= 0,
        y >= 0,
    ensures
        cell_defined(map, x, y),
{
    let h = map@.len() as int;
    let w = map@[0]@.len() as int;
    assert(0 <= y % h < h) by (nonlinear_arith)
        requires
            h > 0,
    ;
    assert(0 <= x % w < w) by (nonlinear_arith)
        requires
            w > 0,
    ;
    assert(map@[y % h]@.len() == w);
}

/// The terrain at `(x, y)`; coordinates wrap around the grid.
pub fn map_value(map: &Vec<Vec<Terrain>>, x: u16, y: u16) -> (t: Terrain)
    requires
        cell_defined(map, x as int, y as int),
    ensures
        t == terrain_at(map, x as int, y as int),
{
    let row = &map[y as usize % map.len()];
    row[x as usize % map[0].len()]
}

pub fn is_obstacle(map: &Vec<Vec<Terrain>>, x: u16, y: u16) -> (b: bool)
    requires
        cell_defined(map, x as int, y as int),
    ensures
        b == (terrain_at(map, x as int, y as int) == Terrain::Obstacle),
{
    map_value(map, x, y) == Terrain::Obstacle
}

pub fn is_crystal(map: &Vec<Vec<Terrain>>, x: u16, y: u16) -> (b: bool)
    requires
        cell_defined(map, x as int, y as int),
    ensures
        b == (terrain_at(map, x as int, y as int) == Terrain::Crystal),
{
    map_value(map, x, y) == Terrain::Crystal
}

pub fn is_energy(map: &Vec<Vec<Terrain>>, x: u16, y: u16) -> (b: bool)
    requires
        cell_defined(map, x as int, y as int),
    ensures
        b == (terrain_at(map, x as int, y as int) == Terrain::Energy),
{
    map_value(map, x, y) == Terrain::Energy
}

/// The base occupies the 3x3 square centred on `pos`.
pub open spec fn in_base(x: int, y: int, pos: Pos) -> bool {
    &&& pos.0 - 1 <= x <= pos.0 + 1
    &&& pos.1 - 1 <= y <= pos.1 + 1
}

pub fn is_base_cell(x: u16, y: u16, pos: (u16, u16)) -> (b: bool)
    requires
        pos.0 < u16::MAX,
        pos.1 < u16::MAX,
    ensures
        b == in_base(x as int, y as int, pos),
{
    let (bx, by) = pos;
    let x_min = bx.saturating_sub(1);
    let y_min = by.saturating_sub(1);
    let x_max = bx + 1;
    let y_max = by + 1;

    x >= x_min && x <= x_max && y >= y_min && y <= y_max
}

pub open spec fn clamp(v: int, lo: int, hi: int) -> int {
    if v < lo {
        lo
    } else if v > hi {
        hi
    } else {
        v
    }
}

/// One step of `d` from coordinate `v`, kept inside `1 ..= size - 2`.
pub open spec fn step_coord(v: int, d: int, size: int) -> int {
    clamp(v + d, 1, size - 2)
}

/// The cell one step of `d` away from `p`, kept off the outer rim of a
/// `width` x `height` map.
pub open spec fn step(p: Pos, d: (i16, i16), width: int, height: int) -> Pos {
    (step_coord(p.0 as int, d.0 as int, width) as u16, step_coord(p.1 as int, d.1 as int, height) as u16)
}

/// A map size that the `i16` step arithmetic can handle.
pub open spec fn size_ok(size: int) -> bool {
    3 <= size <= i16::MAX
}

pub fn clamped_step(v: u16, d: i16, size: usize) -> (r: u16)
    requires
        v <= i16::MAX,
        i16::MIN <= v + d <= i16::MAX,
        size_ok(size as int),
    ensures
        r == step_coord(v as int, d as int, size as int),
        1 <= r <= size - 2,
{
    let s = (v as i16) + d;
    let hi = (size as i16) - 2;
    let c = if s < 1 {
        1
    } else if s > hi {
        hi
    } else {
        s
    };
    c as u16
}

/// The four unit moves, in the order the robots try them: up, down, left, right.
pub open spec fn dir(k: int) -> (i16, i16) {
    if k == 0 {
        (0i16, -1i16)
    } else if k == 1 {
        (0i16, 1i16)
    } else if k == 2 {
        (-1i16, 0i16)
    } else {
        (1i16, 0i16)
    }
}

pub fn direction(k: usize) -> (d: (i16, i16))
    requires
        k < 4,
    ensures
        d == dir(k as int),
{
    if k == 0 {
        (0, -1)
    } else if k == 1 {
        (0, 1)
    } else if k == 2 {
        (-1, 0)
    } else {
        (1, 0)
    }
}

/// `b` is one unit move away from `a` (after clamping to the playable area).
pub open spec fn adjacent(a: Pos, b: Pos, width: int, height: int) -> bool {
    ||| b == step(a, dir(0), width, height)
    ||| b == step(a, dir(1), width, height)
    ||| b == step(a, dir(2), width, height)
    ||| b == step(a, dir(3), width, height)
}

/// The cells within Chebyshev distance 3 of the map centre are kept free.
pub open spec fn in_safe_zone(x: int, y: int, width: int, height: int) -> bool {
    let dx = x - width / 2;
    let dy = y - height / 2;
    &&& -3 <= dx <= 3
    &&& -3 <= dy <= 3
}

/// Builds the terrain grid: the sampled `noise` classes everywhere except in
/// the safe zone around the centre, which is plain low ground.
pub fn generate_map(width: usize, height: usize, noise: &Vec<Vec<Terrain>>) -> (map: Vec<Vec<Terrain>>)
    requires
        width <= i32::MAX,
        height <= i32::MAX,
        noise@.len() == height,
        forall|y: int| 0 <= y < height ==> #[trigger] noise@[y]@.len() == width,
    ensures
        map@.len() == height,
        forall|y: int| 0 <= y < height ==> #[trigger] map@[y]@.len() == width,
        forall|x: int, y: int|
            0 <= x < width && 0 <= y < height ==> #[trigger] map@[y]@[x] == if in_safe_zone(x, y, width as int, height as int) {
                Terrain::Low
            } else {
                noise@[y]@[x]
            },
{
    let base_x = width as i32 / 2;
    let base_y = height as i32 / 2;
    let mut map: Vec<Vec<Terrain>> = Vec::new();
    let mut y: usize = 0;
    while y < height
        invariant
            y <= height,
            width <= i32::MAX,
            height <= i32::MAX,
            base_x == width / 2,
            base_y == height / 2,
            noise@.len() == height,
            forall|j: int| 0 <= j < height ==> #[trigger] noise@[j]@.len() == width,
            map@.len() == y,
            forall|j: int| 0 <= j < y ==> #[trigger] map@[j]@.len() == width,
            forall|i: int, j: int|
                0 <= i < width && 0 <= j < y ==> #[trigger] map@[j]@[i] == if in_safe_zone(i, j, width as int, height as int) {
                    Terrain::Low
                } else {
                    noise@[j]@[i]
                },
        decreases height - y,
    {
        let mut row: Vec<Terrain> = Vec::new();
        let mut x: usize = 0;
        while x < width
            invariant
                x <= width,
                y < height,
                width <= i32::MAX,
                height <= i32::MAX,
                base_x == width / 2,
                base_y == height / 2,
                noise@.len() == height,
                noise@[y as int]@.len() == width,
                row@.len() == x,
                forall|i: int|
                    0 <= i < x ==> #[trigger] row@[i] == if in_safe_zone(i, y as int, width as int, height as int) {
                        Terrain::Low
                    } else {
                        noise@[y as int]@[i]
                    },
            decreases width - x,
        {
            let dx = x as i32 - base_x;
            let dy = y as i32 - base_y;
            let adx = if dx < 0 { -dx } else { dx };
            let ady = if dy < 0 { -dy } else { dy };
            let m = if adx > ady { adx } else { ady };
            if m <= 3 {
                row.push(Terrain::Low);
            } else {
                row.push(noise[y][x]);
            }
            x += 1;
        }
        map.push(row);
        y += 1;
    }
    map
}

} // verus!
