//! Robots: what they are, what they do, and what they carry.

use std::collections::VecDeque;

use vstd::prelude::*;

use crate::collections::PositionSet;
use crate::random::{gen_index, gen_ratio, shuffle_directions};
use crate::world::{
    clamped_step, dir, direction, grid_wf, in_base, is_base_cell, is_obstacle,
    lemma_grid_cell_defined, size_ok, step, terrain_at, Pos, Terrain,
};
use rand::rngs::StdRng;

verus! {

#[derive(Clone, Copy, PartialEq, Eq, Debug, Structural)]
pub enum RobotType {
    Scout,
    Collector,
}

#[derive(Clone, Copy, PartialEq, Eq, Debug, Structural)]
pub enum RobotState {
    Exploring,
    MovingToResource,
    Collecting,
    ReturningToBase,
}

pub struct Robot {
    pub position: Pos,
    pub robot_type: RobotType,
    pub state: RobotState,
    pub carried_crystals: u32,
    pub carried_energy: u32,
    pub path: VecDeque<Pos>,
    pub preferred_dir: (i16, i16),
}

/// A robot as a mathematical value, its path as a sequence.
pub struct RobotView {
    pub position: Pos,
    pub robot_type: RobotType,
    pub state: RobotState,
    pub carried_crystals: u32,
    pub carried_energy: u32,
    pub path: Seq<Pos>,
    pub preferred_dir: (i16, i16),
}

impl View for Robot {
    type V = RobotView;

    open spec fn view(&self) -> RobotView {
        RobotView {
            position: self.position,
            robot_type: self.robot_type,
            state: self.state,
            carried_crystals: self.carried_crystals,
            carried_energy: self.carried_energy,
            path: self.path@,
            preferred_dir: self.preferred_dir,
        }
    }
}

impl Robot {
    /// A robot at `position`, exploring, carrying nothing and with no path.
    pub fn new(position: (u16, u16), robot_type: RobotType, preferred_dir: (i16, i16)) -> (r: Self)
        ensures
            r@ == (RobotView {
                position,
                robot_type,
                state: RobotState::Exploring,
                carried_crystals: 0,
                carried_energy: 0,
                path: Seq::empty(),
                preferred_dir,
            }),
    {
        Self {
            position,
            robot_type,
            state: RobotState::Exploring,
            carried_crystals: 0,
            carried_energy: 0,
            path: VecDeque::new(),
            preferred_dir,
        }
    }
}

/// Position coordinates that a unit step cannot overflow. Maps are at most
/// `i16::MAX` cells wide and high, so this admits every cell of a map; a
/// coordinate of 32767 or more lies off every map and is left out, as the
/// signed step arithmetic would wrap there.
pub open spec fn pos_ok(p: Pos) -> bool {
    p.0 < i16::MAX && p.1 < i16::MAX
}

/// A direction whose step from any position `pos_ok` admits cannot wrap the
/// signed coordinate arithmetic: such positions lie in `0 .. i16::MAX`, so a
/// component may be any negative value but at most 1.
pub open spec fn dir_ok(d: (i16, i16)) -> bool {
    d.0 <= 1 && d.1 <= 1
}

/// The inputs shared by the movement functions: a map and sizes that the
/// step arithmetic and the base test can handle.
pub open spec fn area_ok(map: &Vec<Vec<Terrain>>, width: int, height: int, base_pos: Pos) -> bool {
    &&& grid_wf(map)
    &&& size_ok(width)
    &&& size_ok(height)
    &&& base_pos.0 < u16::MAX
    &&& base_pos.1 < u16::MAX
}

/// A cell a wandering robot standing on `from` may step onto: not an
/// obstacle, not occupied, and not a base cell unless it is already in the base.
pub open spec fn wander_ok(
    map: &Vec<Vec<Terrain>>,
    base_pos: Pos,
    occupied: Set<Pos>,
    from: Pos,
    n: Pos,
) -> bool {
    &&& !in_base(n.0 as int, n.1 as int, base_pos) || in_base(from.0 as int, from.1 as int, base_pos)
    &&& !occupied.contains(n)
    &&& terrain_at(map, n.0 as int, n.1 as int) != Terrain::Obstacle
}

/// Stepping from `from` in direction `d` leads to a cell a wandering robot may enter.
pub open spec fn dir_allowed(
    map: &Vec<Vec<Terrain>>,
    width: int,
    height: int,
    base_pos: Pos,
    occupied: Set<Pos>,
    from: Pos,
    d: (i16, i16),
) -> bool {
    wander_ok(map, base_pos, occupied, from, step(from, d, width, height))
}

/// `new` is `old` after trying the candidate directions in order and taking
/// the first that leads to an allowed cell, which also becomes the preferred
/// direction; with no allowed candidate nothing changes.
pub open spec fn takes_first_valid(
    old: RobotView,
    new: RobotView,
    candidates: Seq<(i16, i16)>,
    map: &Vec<Vec<Terrain>>,
    width: int,
    height: int,
    base_pos: Pos,
    occupied: Set<Pos>,
) -> bool {
    ||| exists|c: int|
        0 <= c < candidates.len() && dir_allowed(map, width, height, base_pos, occupied, old.position, #[trigger] candidates[c])
            && (forall|e: int|
            0 <= e < c ==> !dir_allowed(map, width, height, base_pos, occupied, old.position, #[trigger] candidates[e]))
            && new == (RobotView {
            position: step(old.position, candidates[c], width, height),
            preferred_dir: candidates[c],
            ..old
        })
    ||| (forall|c: int|
        0 <= c < candidates.len() ==> !dir_allowed(map, width, height, base_pos, occupied, old.position, #[trigger] candidates[c]))
        && new == old
}

/// Moves the robot to the first candidate direction that leads to an allowed
/// cell and makes it the preferred direction.
pub fn choose_move(
    robot: &mut Robot,
    map: &Vec<Vec<Terrain>>,
    width: usize,
    height: usize,
    base_pos: Pos,
    candidates: &Vec<(i16, i16)>,
    occupied: &PositionSet,
)
    requires
        area_ok(map, width as int, height as int, base_pos),
        pos_ok(old(robot).position),
        forall|c: int| 0 <= c < candidates@.len() ==> dir_ok(#[trigger] candidates@[c]),
    ensures
        takes_first_valid(
            old(robot)@,
            final(robot)@,
            candidates@,
            map,
            width as int,
            height as int,
            base_pos,
            occupied@.to_set(),
        ),
        pos_ok(final(robot).position),
{
    let ghost old_r = robot@;
    let pos = robot.position;
    let n = candidates.len();
    let mut c: usize = 0;
    let mut found = false;
    let mut np: Pos = pos;
    let mut nd: (i16, i16) = (0, 0);
    while !found && c < n
        invariant
            n == candidates@.len(),
            c <= n,
            pos == old_r.position,
            area_ok(map, width as int, height as int, base_pos),
            pos_ok(old_r.position),
            forall|i: int| 0 <= i < candidates@.len() ==> dir_ok(#[trigger] candidates@[i]),
            forall|e: int|
                0 <= e < c ==> !dir_allowed(
                    map,
                    width as int,
                    height as int,
                    base_pos,
                    occupied@.to_set(),
                    old_r.position,
                    #[trigger] candidates@[e],
                ),
            found ==> c < n && dir_allowed(
                map,
                width as int,
                height as int,
                base_pos,
                occupied@.to_set(),
                old_r.position,
                candidates@[c as int],
            ) && np == step(old_r.position, candidates@[c as int], width as int, height as int)
                && nd == candidates@[c as int] && pos_ok(np),
        decreases n - c + if found {
            0int
        } else {
            1int
        },
    {
        let (dx, dy) = candidates[c];
        let nx = clamped_step(pos.0, dx, width);
        let ny = clamped_step(pos.1, dy, height);
        proof {
            lemma_grid_cell_defined(map, nx as int, ny as int);
        }
        let in_base_now = is_base_cell(pos.0, pos.1, base_pos);
        let valid = (!is_base_cell(nx, ny, base_pos) || in_base_now) && !occupied.contains(&(nx, ny))
            && !is_obstacle(map, nx, ny);
        assert(valid == dir_allowed(
            map,
            width as int,
            height as int,
            base_pos,
            occupied@.to_set(),
            old_r.position,
            candidates@[c as int],
        ));
        if valid {
            found = true;
            np = (nx, ny);
            nd = (dx, dy);
        } else {
            c += 1;
        }
    }
    if found {
        robot.position = np;
        robot.preferred_dir = nd;
        let ghost cc = c as int;
        assert(robot@ == (RobotView {
            position: step(old_r.position, candidates@[cc], width as int, height as int),
            preferred_dir: candidates@[cc],
            ..old_r
        }));
    }
}

/// The four unit directions in order.
pub open spec fn unit_dirs() -> Seq<(i16, i16)> {
    seq![dir(0), dir(1), dir(2), dir(3)]
}

/// `s` without the elements equal to `p`, order kept.
pub open spec fn drop_dir(s: Seq<(i16, i16)>, p: (i16, i16)) -> Seq<(i16, i16)>
    decreases s.len(),
{
    if s.len() == 0 {
        s
    } else if s.last() == p {
        drop_dir(s.drop_last(), p)
    } else {
        drop_dir(s.drop_last(), p).push(s.last())
    }
}

/// What `drop_dir` keeps comes from its input.
pub proof fn lemma_drop_dir_subset(s: Seq<(i16, i16)>, p: (i16, i16), d: (i16, i16))
    requires
        drop_dir(s, p).contains(d),
    ensures
        s.contains(d),
    decreases s.len(),
{
    if s.len() > 0 {
        let r = drop_dir(s.drop_last(), p);
        if s.last() != p && d == s.last() {
            assert(s[s.len() - 1] == d);
        } else {
            if s.last() != p {
                let j = choose|j: int| 0 <= j < drop_dir(s, p).len() && drop_dir(s, p)[j] == d;
                assert(j < r.len());
                assert(r[j] == d);
            }
            lemma_drop_dir_subset(s.drop_last(), p, d);
            let j = choose|j: int| 0 <= j < s.drop_last().len() && s.drop_last()[j] == d;
            assert(s[j] == d);
        }
    }
}

/// What any call of `move_scout` leaves: the preferred direction is kept or
/// replaced by a unit direction; the candidates are that direction followed by
/// the other unit directions in some order; the robot takes the first
/// candidate leading to an allowed cell.
pub open spec fn scout_moved(
    old: RobotView,
    new: RobotView,
    map: &Vec<Vec<Terrain>>,
    width: int,
    height: int,
    base_pos: Pos,
    occupied: Set<Pos>,
) -> bool {
    exists|pref: (i16, i16), others: Seq<(i16, i16)>|
        {
            &&& (pref == old.preferred_dir || unit_dirs().contains(pref))
            &&& others.to_multiset() == drop_dir(unit_dirs(), pref).to_multiset()
            &&& #[trigger] takes_first_valid(
                RobotView { preferred_dir: pref, ..old },
                new,
                seq![pref] + others,
                map,
                width,
                height,
                base_pos,
                occupied,
            )
        }
}

/// The preferred direction after the draw: unit direction `i` when the
/// robot picked one, its old preferred direction otherwise.
pub open spec fn redrawn_dir(old_pref: (i16, i16), redraw: Option<usize>) -> (i16, i16) {
    match redraw {
        Some(i) => dir(i as int),
        None => old_pref,
    }
}

/// Moves a wandering robot one cell given what was drawn for it: `redraw` is
/// the new preferred direction it picked, if any, and `alternatives` the
/// other unit directions in the order they are tried. It tries the preferred
/// direction first, then the alternatives, and takes the first allowed cell.
pub fn move_with_draws(
    robot: &mut Robot,
    map: &Vec<Vec<Terrain>>,
    width: usize,
    height: usize,
    base_pos: Pos,
    redraw: Option<usize>,
    alternatives: &Vec<(i16, i16)>,
    occupied: &PositionSet,
)
    requires
        area_ok(map, width as int, height as int, base_pos),
        pos_ok(old(robot).position),
        dir_ok(old(robot).preferred_dir),
        redraw matches Some(i) ==> i < 4,
        alternatives@.to_multiset() == drop_dir(
            unit_dirs(),
            redrawn_dir(old(robot).preferred_dir, redraw),
        ).to_multiset(),
    ensures
        takes_first_valid(
            RobotView { preferred_dir: redrawn_dir(old(robot).preferred_dir, redraw), ..old(robot)@ },
            final(robot)@,
            seq![redrawn_dir(old(robot).preferred_dir, redraw)] + alternatives@,
            map,
            width as int,
            height as int,
            base_pos,
            occupied@.to_set(),
        ),
        dir_ok(final(robot).preferred_dir),
        pos_ok(final(robot).position),
{
    let ghost old_r = robot@;
    match redraw {
        Some(i) => {
            robot.preferred_dir = direction(i);
        },
        None => {},
    }
    let pref = robot.preferred_dir;
    let mut candidates: Vec<(i16, i16)> = Vec::new();
    candidates.push(pref);
    let na = alternatives.len();
    for i in 0..na
        invariant
            na == alternatives@.len(),
            candidates@ == seq![pref] + alternatives@.take(i as int),
    {
        candidates.push(alternatives[i]);
        assert(alternatives@.take(i + 1) == alternatives@.take(i as int).push(alternatives@[i as int]));
    }
    assert(alternatives@.take(na as int) == alternatives@);
    proof {
        let alts0 = drop_dir(unit_dirs(), pref);
        assert forall|c: int| 0 <= c < candidates@.len() implies dir_ok(#[trigger] candidates@[c]) by {
            if c > 0 {
                let d = alternatives@[c - 1];
                alternatives@.to_multiset_ensures();
                alts0.to_multiset_ensures();
                assert(alternatives@.contains(d));
                assert(alternatives@.to_multiset().count(d) > 0);
                assert(alts0.to_multiset().count(d) > 0);
                assert(alts0.contains(d));
                lemma_drop_dir_subset(unit_dirs(), pref, d);
                assert(unit_dirs().contains(d));
                let j = choose|j: int| 0 <= j < 4 && unit_dirs()[j] == d;
                assert(dir_ok(unit_dirs()[j]));
            }
        }
        assert(dir_ok(pref));
    }
    let ghost mid = robot@;
    choose_move(robot, map, width, height, base_pos, &candidates, occupied);
    proof {
        assert(mid == RobotView { preferred_dir: pref, ..old_r });
    }
}

/// Moves a wandering robot one cell: with a chance of 1 in 20 it first picks
/// a new preferred direction at random; then it tries the preferred direction
/// and the three others in random order, taking the first allowed cell.
pub fn move_scout(
    robot: &mut Robot,
    map: &Vec<Vec<Terrain>>,
    width: usize,
    height: usize,
    base_pos: Pos,
    rng: &mut StdRng,
    occupied: &PositionSet,
)
    requires
        area_ok(map, width as int, height as int, base_pos),
        pos_ok(old(robot).position),
        dir_ok(old(robot).preferred_dir),
    ensures
        scout_moved(old(robot)@, final(robot)@, map, width as int, height as int, base_pos, occupied@.to_set()),
        dir_ok(final(robot).preferred_dir),
        pos_ok(final(robot).position),
{
    let ghost old_r = robot@;
    let redraw: Option<usize> = if gen_ratio(rng, 1, 20) {
        Some(gen_index(rng, 4))
    } else {
        None
    };
    let pref = match redraw {
        Some(i) => direction(i),
        None => robot.preferred_dir,
    };
    proof {
        if let Some(i) = redraw {
            assert(unit_dirs()[i as int] == dir(i as int));
        }
    }
    let mut alternatives: Vec<(i16, i16)> = Vec::new();
    for k in 0..4
        invariant
            alternatives@ == drop_dir(unit_dirs().take(k as int), pref),
    {
        proof {
            assert(unit_dirs().take(k + 1).drop_last() == unit_dirs().take(k as int));
            assert(unit_dirs().take(k + 1).last() == dir(k as int));
        }
        let d = direction(k);
        if d.0 != pref.0 || d.1 != pref.1 {
            alternatives.push(d);
        }
    }
    assert(unit_dirs().take(4) == unit_dirs());
    shuffle_directions(rng, &mut alternatives);
    move_with_draws(robot, map, width, height, base_pos, redraw, &alternatives, occupied);
    proof {
        let p = redrawn_dir(old_r.preferred_dir, redraw);
        assert(p == old_r.preferred_dir || unit_dirs().contains(p));
        assert(takes_first_valid(
            RobotView { preferred_dir: p, ..old_r },
            robot@,
            seq![p] + alternatives@,
            map,
            width as int,
            height as int,
            base_pos,
            occupied@.to_set(),
        ));
    }
}

} // verus!
