//! Building the initial world: base, resources and robots.

use rand::rngs::StdRng;
use vstd::prelude::*;

use crate::collections::ResourceMap;
use crate::laws::{in_play, robots_placed};
use crate::random::{gen_range_inclusive, gen_ratio};
use crate::robot::{Robot, RobotState, RobotType, RobotView};
use crate::simulation::{robot_ok, SimulationState};
use crate::world::{
    clamped_step, generate_map, grid_wf, in_base, in_safe_zone, is_base_cell,
    is_crystal, is_energy, is_obstacle, lemma_grid_cell_defined, size_ok, step_coord, terrain_at,
    Pos, Terrain,
};

verus! {

/// Fewest and most units a resource cell is stocked with.
pub const MIN_STOCK: u32 = 50;

pub const MAX_STOCK: u32 = 200;

/// The base sits in the middle of the map.
pub fn base_position(width: usize, height: usize) -> (p: Pos)
    requires
        width <= u16::MAX,
        height <= u16::MAX,
    ensures
        p == ((width / 2) as u16, (height / 2) as u16),
{
    ((width as u16) / 2, (height as u16) / 2)
}

/// An entry of the initial stock: a crystal or energy cell of the map, off
/// the base, holding between `MIN_STOCK` and `MAX_STOCK` units.
pub open spec fn seeded_entry(map: &Vec<Vec<Terrain>>, width: int, height: int, base_pos: Pos, e: (Pos, u32)) -> bool {
    let (p, q) = e;
    let t = terrain_at(map, p.0 as int, p.1 as int);
    &&& p.0 < width && p.1 < height
    &&& !in_base(p.0 as int, p.1 as int, base_pos)
    &&& (t == Terrain::Crystal || t == Terrain::Energy)
    &&& MIN_STOCK <= q <= MAX_STOCK
}

/// The `c`-th cell of a `width`-wide map, counting row by row.
pub open spec fn nth_cell(c: int, width: int) -> Pos {
    ((c % width) as u16, (c / width) as u16)
}

/// A cell that may be given an initial stock: a crystal or energy cell off
/// the base.
pub open spec fn stockable(map: &Vec<Vec<Terrain>>, base_pos: Pos, p: Pos) -> bool {
    let t = terrain_at(map, p.0 as int, p.1 as int);
    &&& !in_base(p.0 as int, p.1 as int, base_pos)
    &&& (t == Terrain::Crystal || t == Terrain::Energy)
}

/// The stockable cells among the first `c` cells of the map, row by row.
pub open spec fn stockable_cells(map: &Vec<Vec<Terrain>>, width: int, base_pos: Pos, c: int) -> Seq<Pos>
    decreases c,
{
    if c <= 0 {
        Seq::empty()
    } else {
        let rest = stockable_cells(map, width, base_pos, c - 1);
        let p = nth_cell(c - 1, width);
        if stockable(map, base_pos, p) {
            rest.push(p)
        } else {
            rest
        }
    }
}

/// The stock that one draw per cell gives: `Some(q)` stocks the cell with
/// `q` units, `None` leaves it out.
pub open spec fn stock_from(cells: Seq<Pos>, draws: Seq<Option<u32>>) -> Seq<(Pos, u32)>
    decreases cells.len(),
{
    if cells.len() == 0 || draws.len() == 0 {
        Seq::empty()
    } else {
        let rest = stock_from(cells.drop_last(), draws.drop_last());
        match draws.last() {
            Some(q) => rest.push((cells.last(), q)),
            None => rest,
        }
    }
}

/// One draw per stockable cell, each leaving the cell out or giving it a
/// quantity in `MIN_STOCK ..= MAX_STOCK`.
pub open spec fn valid_draws(draws: Seq<Option<u32>>, n: int) -> bool {
    &&& draws.len() == n
    &&& forall|i: int| 0 <= i < draws.len() ==> (#[trigger] draws[i] matches Some(q) ==> MIN_STOCK <= q <= MAX_STOCK)
}

/// The stockable cells among the first `n` cells are exactly the crystal and
/// energy cells off the base among them, whatever their kind.
pub proof fn lemma_stockable_cells(map: &Vec<Vec<Terrain>>, width: int, base_pos: Pos, n: int)
    requires
        0 <= n,
    ensures
        forall|c: int|
            0 <= c < n && stockable(map, base_pos, #[trigger] nth_cell(c, width)) ==> stockable_cells(
                map,
                width,
                base_pos,
                n,
            ).contains(nth_cell(c, width)),
        forall|p: Pos| #[trigger] stockable_cells(map, width, base_pos, n).contains(p) ==> stockable(map, base_pos, p),
    decreases n,
{
    if n > 0 {
        lemma_stockable_cells(map, width, base_pos, n - 1);
        let rest = stockable_cells(map, width, base_pos, n - 1);
        let cur = stockable_cells(map, width, base_pos, n);
        let q = nth_cell(n - 1, width);
        assert forall|c: int|
            0 <= c < n && stockable(map, base_pos, #[trigger] nth_cell(c, width)) implies cur.contains(nth_cell(c, width)) by {
            if c < n - 1 {
                let j = choose|j: int| 0 <= j < rest.len() && rest[j] == nth_cell(c, width);
                if stockable(map, base_pos, q) {
                    assert(cur[j] == rest[j]);
                }
            } else {
                assert(cur[rest.len() as int] == q);
            }
        }
        assert forall|p: Pos| #[trigger] cur.contains(p) implies stockable(map, base_pos, p) by {
            let j = choose|j: int| 0 <= j < cur.len() && cur[j] == p;
            if j < rest.len() {
                assert(cur[j] == rest[j]);
                assert(rest.contains(p));
            }
        }
    }
}

/// Draws that all succeed stock every cell they are drawn for, in order, with
/// the drawn quantity.
pub proof fn lemma_full_draws(cells: Seq<Pos>, draws: Seq<Option<u32>>)
    requires
        draws.len() == cells.len(),
        forall|i: int| 0 <= i < draws.len() ==> (#[trigger] draws[i]) is Some,
    ensures
        stock_from(cells, draws).len() == cells.len(),
        forall|i: int|
            0 <= i < cells.len() ==> #[trigger] stock_from(cells, draws)[i] == (cells[i], draws[i]->0),
    decreases cells.len(),
{
    if cells.len() > 0 {
        let c0 = cells.drop_last();
        let d0 = draws.drop_last();
        assert forall|i: int| 0 <= i < d0.len() implies (#[trigger] d0[i]) is Some by {
            assert(d0[i] == draws[i]);
        }
        lemma_full_draws(c0, d0);
        assert(draws[draws.len() - 1] is Some);
        let st = stock_from(cells, draws);
        assert forall|i: int| 0 <= i < cells.len() implies #[trigger] st[i] == (cells[i], draws[i]->0) by {
            if i < c0.len() {
                assert(st[i] == stock_from(c0, d0)[i]);
                assert(c0[i] == cells[i]);
                assert(d0[i] == draws[i]);
            }
        }
    }
}

/// Cell `a` comes before cell `b` row by row.
pub open spec fn row_before(a: Pos, b: Pos) -> bool {
    a.1 < b.1 || (a.1 == b.1 && a.0 < b.0)
}

/// The stock that `draws` give to the stockable cells of the map, taken row
/// by row: the `i`-th stockable cell gets `q` units when the `i`-th draw is
/// `Some(q)`, and is left out when it is `None`.
pub fn stock_from_draws(
    map: &Vec<Vec<Terrain>>,
    width: usize,
    height: usize,
    base_pos: Pos,
    draws: &Vec<Option<u32>>,
) -> (stock: ResourceMap)
    requires
        grid_wf(map),
        width <= u16::MAX,
        height <= u16::MAX,
        base_pos.0 < u16::MAX,
        base_pos.1 < u16::MAX,
        valid_draws(draws@, stockable_cells(map, width as int, base_pos, width * height).len() as int),
    ensures
        stock.wf(),
        stock@ == stock_from(stockable_cells(map, width as int, base_pos, width * height), draws@),
        forall|i: int| 0 <= i < stock@.len() ==> seeded_entry(map, width as int, height as int, base_pos, #[trigger] stock@[i]),
        stock@.len() <= width * height,
        forall|i: int, j: int|
            0 <= i < j < stock@.len() ==> row_before(#[trigger] stock@[i].0, #[trigger] stock@[j].0),
{
    let mut stock = ResourceMap::new();
    let mut di: usize = 0;
    let h = height as u16;
    let w = width as u16;
    let mut y: u16 = 0;
    while y < h
        invariant
            grid_wf(map),
            h == height,
            w == width,
            y <= h,
            base_pos.0 < u16::MAX,
            base_pos.1 < u16::MAX,
            stock.wf(),
            forall|i: int|
                0 <= i < stock@.len() ==> seeded_entry(map, width as int, height as int, base_pos, #[trigger] stock@[i]),
            forall|i: int| 0 <= i < stock@.len() ==> (#[trigger] stock@[i]).0.1 < y,
            stock@.len() <= y * width,
            forall|i: int, j: int|
                0 <= i < j < stock@.len() ==> row_before(#[trigger] stock@[i].0, #[trigger] stock@[j].0),
            valid_draws(draws@, stockable_cells(map, width as int, base_pos, width * height).len() as int),
            di == stockable_cells(map, width as int, base_pos, y * width).len(),
            stock@ == stock_from(stockable_cells(map, width as int, base_pos, y * width), draws@.take(di as int)),
        decreases h - y,
    {
        let mut x: u16 = 0;
        while x < w
            invariant
                grid_wf(map),
                h == height,
                w == width,
                y < h,
                x <= w,
                base_pos.0 < u16::MAX,
                base_pos.1 < u16::MAX,
                stock.wf(),
                forall|i: int|
                    0 <= i < stock@.len() ==> seeded_entry(map, width as int, height as int, base_pos, #[trigger] stock@[i]),
                forall|i: int|
                    0 <= i < stock@.len() ==> (#[trigger] stock@[i]).0.1 < y || ((stock@[i]).0.1 == y
                        && stock@[i].0.0 < x),
                stock@.len() <= y * width + x,
                forall|i: int, j: int|
                    0 <= i < j < stock@.len() ==> row_before(#[trigger] stock@[i].0, #[trigger] stock@[j].0),
                valid_draws(draws@, stockable_cells(map, width as int, base_pos, width * height).len() as int),
                di == stockable_cells(map, width as int, base_pos, y * width + x).len(),
                stock@ == stock_from(stockable_cells(map, width as int, base_pos, y * width + x), draws@.take(di as int)),
            decreases w - x,
        {
            let ghost c = y * width + x;
            let ghost cells = stockable_cells(map, width as int, base_pos, c);
            let ghost d0 = draws@.take(di as int);
            proof {
                lemma_grid_cell_defined(map, x as int, y as int);
                vstd::arithmetic::div_mod::lemma_fundamental_div_mod_converse(c, width as int, y as int, x as int);
                assert(nth_cell(c, width as int) == (x, y));
            }
            if is_base_cell(x, y, base_pos) || is_obstacle(map, x, y) {
                assert(stockable_cells(map, width as int, base_pos, c + 1) == cells);
            } else if is_crystal(map, x, y) || is_energy(map, x, y) {
                assert(stockable_cells(map, width as int, base_pos, c + 1) == cells.push((x, y)));
                proof {
                    assert(c + 1 <= width * height) by (nonlinear_arith)
                        requires
                            c == y * width + x,
                            x < width,
                            y + 1 <= height,
                    ;
                    lemma_stockable_prefix(map, width as int, base_pos, c + 1, width * height);
                    assert(draws@.take(di + 1).drop_last() == d0);
                    assert(draws@.take(di + 1).last() == draws@[di as int]);
                    assert(cells.push((x, y)).drop_last() == cells);
                }
                assert(di < draws.len());
                match draws[di] {
                    Some(qty) => {
                        let ghost s0 = stock@;
                        proof {
                            assert(MIN_STOCK <= qty <= MAX_STOCK);
                            crate::collections::lemma_lookup_index(s0, (x, y));
                            assert forall|i: int| 0 <= i < s0.len() implies #[trigger] s0[i].0 != (x, y) by {}
                        }
                        stock.insert((x, y), qty);
                        proof {
                            assert(stock@ == s0.push(((x, y), qty)));
                            assert forall|i: int| 0 <= i < stock@.len() implies seeded_entry(
                                map,
                                width as int,
                                height as int,
                                base_pos,
                                #[trigger] stock@[i],
                            ) by {
                                if i < s0.len() {
                                    assert(stock@[i] == s0[i]);
                                }
                            }
                            assert forall|i: int| 0 <= i < stock@.len() implies (#[trigger] stock@[i]).0.1 < y
                                || ((stock@[i]).0.1 == y && stock@[i].0.0 < x + 1) by {
                                if i < s0.len() {
                                    assert(stock@[i] == s0[i]);
                                }
                            }
                            assert forall|i: int, j: int| 0 <= i < j < stock@.len() implies row_before(
                                #[trigger] stock@[i].0,
                                #[trigger] stock@[j].0,
                            ) by {
                                assert(stock@[i] == s0[i]);
                                if j < s0.len() {
                                    assert(stock@[j] == s0[j]);
                                }
                            }
                        }
                    },
                    None => {},
                }
                di += 1;
            } else {
                assert(stockable_cells(map, width as int, base_pos, c + 1) == cells);
            }
            x += 1;
        }
        proof {
            assert((y + 1) * width == y * width + width) by (nonlinear_arith);
        }
        y += 1;
    }
    proof {
        assert(height * width == width * height) by (nonlinear_arith);
        assert(draws@.take(di as int) == draws@);
    }
    stock
}

/// Stocks, each with a chance of 1 in 10, the crystal and energy cells of the
/// map that are off the base, with a random quantity in
/// `MIN_STOCK ..= MAX_STOCK`: one draw per such cell, row by row, and then
/// the stock those draws give.
pub fn seed_resources(
    map: &Vec<Vec<Terrain>>,
    width: usize,
    height: usize,
    base_pos: Pos,
    rng: &mut StdRng,
) -> (stock: ResourceMap)
    requires
        grid_wf(map),
        width <= u16::MAX,
        height <= u16::MAX,
        base_pos.0 < u16::MAX,
        base_pos.1 < u16::MAX,
    ensures
        stock.wf(),
        forall|i: int| 0 <= i < stock@.len() ==> seeded_entry(map, width as int, height as int, base_pos, #[trigger] stock@[i]),
        stock@.len() <= width * height,
        forall|i: int, j: int|
            0 <= i < j < stock@.len() ==> row_before(#[trigger] stock@[i].0, #[trigger] stock@[j].0),
        exists|draws: Seq<Option<u32>>|
            #[trigger] valid_draws(draws, stockable_cells(map, width as int, base_pos, width * height).len() as int)
                && stock@ == stock_from(stockable_cells(map, width as int, base_pos, width * height), draws),
{
    let draws = stock_draws(map, width, height, base_pos, 1, 10, rng);
    stock_from_draws(map, width, height, base_pos, &draws)
}

/// One draw per stockable cell of the map, row by row, made the same way for
/// crystal and energy cells: with a chance of `numerator` in `denominator` a
/// quantity in `MIN_STOCK ..= MAX_STOCK`, otherwise none. A certain chance
/// stocks every stockable cell and a null one none.
fn stock_draws(
    map: &Vec<Vec<Terrain>>,
    width: usize,
    height: usize,
    base_pos: Pos,
    numerator: u32,
    denominator: u32,
    rng: &mut StdRng,
) -> (draws: Vec<Option<u32>>)
    requires
        grid_wf(map),
        width <= u16::MAX,
        height <= u16::MAX,
        base_pos.0 < u16::MAX,
        base_pos.1 < u16::MAX,
        0 < denominator,
        numerator <= denominator,
    ensures
        valid_draws(draws@, stockable_cells(map, width as int, base_pos, width * height).len() as int),
        numerator == denominator ==> forall|i: int| 0 <= i < draws@.len() ==> (#[trigger] draws@[i]) is Some,
        numerator == 0 ==> forall|i: int| 0 <= i < draws@.len() ==> (#[trigger] draws@[i]) is None,
{
    let mut draws: Vec<Option<u32>> = Vec::new();
    let h = height as u16;
    let w = width as u16;
    let mut y: u16 = 0;
    while y < h
        invariant
            grid_wf(map),
            h == height,
            w == width,
            y <= h,
            base_pos.0 < u16::MAX,
            base_pos.1 < u16::MAX,
            valid_draws(draws@, stockable_cells(map, width as int, base_pos, y * width).len() as int),
            0 < denominator,
            numerator <= denominator,
            numerator == denominator ==> forall|i: int| 0 <= i < draws@.len() ==> (#[trigger] draws@[i]) is Some,
            numerator == 0 ==> forall|i: int| 0 <= i < draws@.len() ==> (#[trigger] draws@[i]) is None,
        decreases h - y,
    {
        let mut x: u16 = 0;
        while x < w
            invariant
                grid_wf(map),
                h == height,
                w == width,
                y < h,
                x <= w,
                base_pos.0 < u16::MAX,
                base_pos.1 < u16::MAX,
                valid_draws(draws@, stockable_cells(map, width as int, base_pos, y * width + x).len() as int),
                0 < denominator,
                numerator <= denominator,
                numerator == denominator ==> forall|i: int| 0 <= i < draws@.len() ==> (#[trigger] draws@[i]) is Some,
                numerator == 0 ==> forall|i: int| 0 <= i < draws@.len() ==> (#[trigger] draws@[i]) is None,
            decreases w - x,
        {
            let ghost c = y * width + x;
            let ghost d0 = draws@;
            proof {
                lemma_grid_cell_defined(map, x as int, y as int);
                vstd::arithmetic::div_mod::lemma_fundamental_div_mod_converse(c, width as int, y as int, x as int);
                assert(nth_cell(c, width as int) == (x, y));
            }
            if is_base_cell(x, y, base_pos) || is_obstacle(map, x, y) {
            } else if is_crystal(map, x, y) || is_energy(map, x, y) {
                if gen_ratio(rng, numerator, denominator) {
                    let qty = gen_range_inclusive(rng, MIN_STOCK, MAX_STOCK);
                    draws.push(Some(qty));
                } else {
                    draws.push(None);
                }
                assert forall|i: int| 0 <= i < draws@.len() implies (#[trigger] draws@[i] matches Some(q)
                    ==> MIN_STOCK <= q <= MAX_STOCK) by {
                    if i < d0.len() {
                        assert(draws@[i] == d0[i]);
                    }
                }
                assert forall|i: int| 0 <= i < draws@.len() implies (numerator == denominator ==> (
                #[trigger] draws@[i]) is Some) && (numerator == 0 ==> draws@[i] is None) by {
                    if i < d0.len() {
                        assert(draws@[i] == d0[i]);
                    }
                }
            }
            x += 1;
        }
        proof {
            assert((y + 1) * width == y * width + width) by (nonlinear_arith);
        }
        y += 1;
    }
    proof {
        assert(height * width == width * height) by (nonlinear_arith);
    }
    draws
}

/// The stockable cells among fewer cells are no more than among more.
proof fn lemma_stockable_prefix(map: &Vec<Vec<Terrain>>, width: int, base_pos: Pos, c: int, n: int)
    requires
        0 <= c <= n,
    ensures
        stockable_cells(map, width, base_pos, c).len() <= stockable_cells(map, width, base_pos, n).len(),
    decreases n - c,
{
    if c < n {
        lemma_stockable_prefix(map, width, base_pos, c + 1, n);
    }
}

/// The cell where the `k`-th robot spawns: the 3x3 block around the base,
/// row by row, kept off the outer rim.
pub open spec fn spawn_cell(base_pos: Pos, width: int, height: int, k: int) -> Pos {
    (
        step_coord(base_pos.0 as int, k % 3 - 1, width) as u16,
        step_coord(base_pos.1 as int, k / 3 - 1, height) as u16,
    )
}

/// The type and preferred direction of the `k`-th robot: four scouts heading
/// right, up, left and down, then four collectors heading right, right, left, left.
pub open spec fn spawn_kind(k: int) -> (RobotType, (i16, i16)) {
    if k == 0 {
        (RobotType::Scout, (1i16, 0i16))
    } else if k == 1 {
        (RobotType::Scout, (0i16, -1i16))
    } else if k == 2 {
        (RobotType::Scout, (-1i16, 0i16))
    } else if k == 3 {
        (RobotType::Scout, (0i16, 1i16))
    } else if k == 4 || k == 5 {
        (RobotType::Collector, (1i16, 0i16))
    } else {
        (RobotType::Collector, (-1i16, 0i16))
    }
}

/// The eight robots of a new game, around the base.
pub fn spawn_robots(base_pos: Pos, width: usize, height: usize) -> (robots: Vec<Robot>)
    requires
        base_pos.0 < i16::MAX,
        base_pos.1 < i16::MAX,
        size_ok(width as int),
        size_ok(height as int),
    ensures
        robots@.len() == 8,
        forall|k: int|
            0 <= k < 8 ==> (#[trigger] robots@[k])@ == (RobotView {
                position: spawn_cell(base_pos, width as int, height as int, k),
                robot_type: spawn_kind(k).0,
                state: RobotState::Exploring,
                carried_crystals: 0,
                carried_energy: 0,
                path: Seq::empty(),
                preferred_dir: spawn_kind(k).1,
            }),
{
    let mut spawn_positions: Vec<Pos> = Vec::new();
    let mut dy: i16 = -1;
    while dy <= 1
        invariant
            -1 <= dy <= 2,
            base_pos.0 < i16::MAX,
            base_pos.1 < i16::MAX,
            size_ok(width as int),
            size_ok(height as int),
            spawn_positions@.len() == 3 * (dy + 1),
            forall|k: int|
                0 <= k < spawn_positions@.len() ==> #[trigger] spawn_positions@[k] == spawn_cell(
                    base_pos,
                    width as int,
                    height as int,
                    k,
                ),
        decreases 2 - dy,
    {
        let mut dx: i16 = -1;
        while dx <= 1
            invariant
                -1 <= dy <= 1,
                -1 <= dx <= 2,
                base_pos.0 < i16::MAX,
                base_pos.1 < i16::MAX,
                size_ok(width as int),
                size_ok(height as int),
                spawn_positions@.len() == 3 * (dy + 1) + dx + 1,
                forall|k: int|
                    0 <= k < spawn_positions@.len() ==> #[trigger] spawn_positions@[k] == spawn_cell(
                        base_pos,
                        width as int,
                        height as int,
                        k,
                    ),
            decreases 2 - dx,
        {
            let x = clamped_step(base_pos.0, dx, width);
            let y = clamped_step(base_pos.1, dy, height);
            let ghost k = spawn_positions@.len() as int;
            assert(k % 3 == dx + 1 && k / 3 == dy + 1);
            spawn_positions.push((x, y));
            dx += 1;
        }
        dy += 1;
    }
    let mut robots: Vec<Robot> = Vec::new();
    robots.push(Robot::new(spawn_positions[0], RobotType::Scout, (1, 0)));
    robots.push(Robot::new(spawn_positions[1], RobotType::Scout, (0, -1)));
    robots.push(Robot::new(spawn_positions[2], RobotType::Scout, (-1, 0)));
    robots.push(Robot::new(spawn_positions[3], RobotType::Scout, (0, 1)));
    robots.push(Robot::new(spawn_positions[4], RobotType::Collector, (1, 0)));
    robots.push(Robot::new(spawn_positions[5], RobotType::Collector, (1, 0)));
    robots.push(Robot::new(spawn_positions[6], RobotType::Collector, (-1, 0)));
    robots.push(Robot::new(spawn_positions[7], RobotType::Collector, (-1, 0)));
    robots
}

/// The robots of a new game stand in the safe zone, hence in play.
proof fn lemma_spawn_in_play(st: &SimulationState, width: int, height: int)
    requires
        st.wf(),
        st.width == width,
        st.height == height,
        st.base_pos == ((width / 2) as u16, (height / 2) as u16),
        forall|x: int, y: int|
            0 <= x < width && 0 <= y < height && in_safe_zone(x, y, width, height) ==> #[trigger] st.map@[y]@[x]
                == Terrain::Low,
        st.robots@.len() == 8,
        forall|k: int|
            0 <= k < 8 ==> (#[trigger] st.robots@[k])@.position == spawn_cell(st.base_pos, width, height, k)
                && st.robots@[k]@.path.len() == 0,
    ensures
        robots_placed(st),
{
    assert forall|i: int| 0 <= i < st.robots@.len() implies {
        let r = (#[trigger] st.robots@[i])@;
        &&& in_play(st, r.position)
        &&& forall|j: int| 0 <= j < r.path.len() ==> in_play(st, #[trigger] r.path[j])
    } by {
        let p = spawn_cell(st.base_pos, width, height, i);
        assert(st.robots@[i]@.position == p);
        let x = p.0 as int;
        let y = p.1 as int;
        assert(0 <= x < width && 0 <= y < height);
        assert(in_safe_zone(x, y, width, height));
        assert(st.map@[y]@[x] == Terrain::Low);
        assert(x % width == x) by (nonlinear_arith)
            requires
                0 <= x < width,
        ;
        assert(y % height == y) by (nonlinear_arith)
            requires
                0 <= y < height,
        ;
        assert(st.map@.len() == height && st.map@[0]@.len() == width);
        assert(terrain_at(&st.map, x, y) == Terrain::Low);
    }
}

impl SimulationState {
    /// A new game on a `width` x `height` map: the base in the middle, the
    /// terrain from `noise` with a safe zone around the base, random resource
    /// stocks and the eight robots around the base.
    pub fn generate(width: usize, height: usize, noise: &Vec<Vec<Terrain>>, rng: &mut StdRng) -> (st: Self)
        requires
            size_ok(width as int),
            size_ok(height as int),
            width * height <= usize::MAX,
            noise@.len() == height,
            forall|y: int| 0 <= y < height ==> #[trigger] noise@[y]@.len() == width,
        ensures
            ({
                &&& st.wf()
                &&& st.width == width
                &&& st.height == height
                &&& st.base_pos == ((width / 2) as u16, (height / 2) as u16)
                &&& forall|x: int, y: int|
                    0 <= x < width && 0 <= y < height ==> #[trigger] st.map@[y]@[x] == if in_safe_zone(
                        x,
                        y,
                        width as int,
                        height as int,
                    ) {
                        Terrain::Low
                    } else {
                        noise@[y]@[x]
                    }
                &&& forall|i: int|
                    0 <= i < st.resource_quantities@.len() ==> seeded_entry(
                        &st.map,
                        width as int,
                        height as int,
                        st.base_pos,
                        #[trigger] st.resource_quantities@[i],
                    )
                &&& exists|draws: Seq<Option<u32>>|
                    #[trigger] valid_draws(
                        draws,
                        stockable_cells(&st.map, width as int, st.base_pos, width * height).len() as int,
                    ) && st.resource_quantities@ == stock_from(
                        stockable_cells(&st.map, width as int, st.base_pos, width * height),
                        draws,
                    )
                &&& st.robots@.len() == 8
                &&& forall|k: int|
                    0 <= k < 8 ==> (#[trigger] st.robots@[k])@ == (RobotView {
                        position: spawn_cell(st.base_pos, width as int, height as int, k),
                        robot_type: spawn_kind(k).0,
                        state: RobotState::Exploring,
                        carried_crystals: 0,
                        carried_energy: 0,
                        path: Seq::empty(),
                        preferred_dir: spawn_kind(k).1,
                    })
                &&& st.collected_crystals@.len() == 0
                &&& st.collected_energy@.len() == 0
                &&& st.discovered_crystals@.len() == 0
                &&& st.discovered_energy@.len() == 0
                &&& st.deposited_crystals == 0
                &&& st.deposited_energy == 0
                &&& robots_placed(&st)
            }),
    {
        let base_pos = base_position(width, height);
        let map = generate_map(width, height, noise);
        assert(map@[0]@.len() == width);
        assert(grid_wf(&map));
        let resources = seed_resources(&map, width, height, base_pos, rng);
        let robots = spawn_robots(base_pos, width, height);
        proof {
            assert forall|i: int| 0 <= i < robots@.len() implies robot_ok(#[trigger] robots@[i]@) by {
                assert(robots@[i]@.path.len() == 0);
            }
        }
        let s = Self::with_resources(map, base_pos, robots, resources);
        proof {
            lemma_spawn_in_play(&s, width as int, height as int);
        }
        s
    }
}

} // verus!
