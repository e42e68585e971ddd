//! The shared simulation state and one tick of each kind of robot.

use rand::rngs::StdRng;
use vstd::prelude::*;

use crate::assignment::{assign_collectors, assigned, targets_after};
use crate::collections::{lemma_lookup_index, PositionSet, ResourceMap};
use crate::pathfinding::{
    bfs, bfs_result, bfs_route, is_shortest_route, lemma_walk_interior, reachable,
};
use crate::robot::{
    dir_ok, move_scout, pos_ok, scout_moved, Robot, RobotState, RobotType, RobotView,
};
use crate::world::{
    clamped_step, dir, direction, grid_wf, in_base, is_base_cell, is_crystal, is_energy,
    is_obstacle, lemma_grid_cell_defined, size_ok, step, terrain_at, Pos, Terrain,
};

verus! {

/// Everything the robots share.
pub struct SimulationState {
    pub map: Vec<Vec<Terrain>>,
    pub width: usize,
    pub height: usize,
    pub base_pos: Pos,
    pub robots: Vec<Robot>,
    pub collected_crystals: PositionSet,
    pub collected_energy: PositionSet,
    pub deposited_crystals: u32,
    pub deposited_energy: u32,
    pub discovered_crystals: PositionSet,
    pub discovered_energy: PositionSet,
    pub resource_quantities: ResourceMap,
}

/// A robot whose coordinates, direction and path a tick can work with.
pub open spec fn robot_ok(r: RobotView) -> bool {
    &&& pos_ok(r.position)
    &&& dir_ok(r.preferred_dir)
    &&& forall|i: int| 0 <= i < r.path.len() ==> pos_ok(#[trigger] r.path[i])
}

/// The resources the robots carry: crystals when `crystals`, energy otherwise.
pub open spec fn carried(rs: Seq<Robot>, crystals: bool) -> nat
    decreases rs.len(),
{
    if rs.len() == 0 {
        0
    } else {
        carried(rs.drop_last(), crystals) + if crystals {
            rs.last().carried_crystals as nat
        } else {
            rs.last().carried_energy as nat
        }
    }
}

/// The quantity left in the ground on cells of terrain `t` (on all cells for `None`).
pub open spec fn quantity_on(s: Seq<(Pos, u32)>, map: &Vec<Vec<Terrain>>, t: Option<Terrain>) -> nat
    decreases s.len(),
{
    if s.len() == 0 {
        0
    } else {
        quantity_on(s.drop_last(), map, t) + if t is None || Some(
            terrain_at(map, s.last().0.0 as int, s.last().0.1 as int),
        ) == t {
            s.last().1 as nat
        } else {
            0
        }
    }
}

pub open spec fn counts_on(map: &Vec<Vec<Terrain>>, p: Pos, t: Option<Terrain>) -> bool {
    t is None || Some(terrain_at(map, p.0 as int, p.1 as int)) == t
}

pub proof fn lemma_carried_update(rs: Seq<Robot>, i: int, r: Robot, crystals: bool)
    requires
        0 <= i < rs.len(),
    ensures
        carried(rs.update(i, r), crystals) + (if crystals {
            rs[i].carried_crystals as int
        } else {
            rs[i].carried_energy as int
        }) == carried(rs, crystals) + (if crystals {
            r.carried_crystals as int
        } else {
            r.carried_energy as int
        }),
    decreases rs.len(),
{
    let u = rs.update(i, r);
    if i < rs.len() - 1 {
        assert(u.drop_last() == rs.drop_last().update(i, r));
        lemma_carried_update(rs.drop_last(), i, r, crystals);
    } else {
        assert(u.drop_last() == rs.drop_last());
    }
}

pub proof fn lemma_carried_bound(rs: Seq<Robot>, i: int)
    requires
        0 <= i < rs.len(),
    ensures
        rs[i].carried_crystals <= carried(rs, true),
        rs[i].carried_energy <= carried(rs, false),
    decreases rs.len(),
{
    if i < rs.len() - 1 {
        lemma_carried_bound(rs.drop_last(), i);
        assert(rs.drop_last()[i] == rs[i]);
    }
}

pub proof fn lemma_quantity_update(
    s: Seq<(Pos, u32)>,
    i: int,
    q: u32,
    map: &Vec<Vec<Terrain>>,
    t: Option<Terrain>,
)
    requires
        0 <= i < s.len(),
    ensures
        quantity_on(s.update(i, (s[i].0, q)), map, t) + (if counts_on(map, s[i].0, t) {
            s[i].1 as int
        } else {
            0
        }) == quantity_on(s, map, t) + (if counts_on(map, s[i].0, t) {
            q as int
        } else {
            0
        }),
    decreases s.len(),
{
    let u = s.update(i, (s[i].0, q));
    if i < s.len() - 1 {
        assert(u.drop_last() == s.drop_last().update(i, (s[i].0, q)));
        lemma_quantity_update(s.drop_last(), i, q, map, t);
        assert(u.last() == s.last());
    } else {
        assert(u.drop_last() == s.drop_last());
    }
}

pub proof fn lemma_quantity_bound(s: Seq<(Pos, u32)>, i: int, map: &Vec<Vec<Terrain>>, t: Option<Terrain>)
    requires
        0 <= i < s.len(),
        counts_on(map, s[i].0, t),
    ensures
        s[i].1 <= quantity_on(s, map, t),
    decreases s.len(),
{
    if i < s.len() - 1 {
        lemma_quantity_bound(s.drop_last(), i, map, t);
        assert(s.drop_last()[i] == s[i]);
    }
}

/// What robot `r` adds to the deposits of one kind in its next tick: its
/// load, when it is a collector heading home whose next cell is the base.
pub open spec fn deposit_share(r: RobotView, base: Pos, crystals: bool) -> nat {
    if r.robot_type == RobotType::Collector && r.state == RobotState::ReturningToBase && r.path.len() > 0
        && r.path[0] == base {
        if crystals {
            r.carried_crystals as nat
        } else {
            r.carried_energy as nat
        }
    } else {
        0
    }
}

/// What the robots of `rs` add to the deposits of one kind when each takes its
/// next tick.
pub open spec fn deposit_load(rs: Seq<Robot>, base: Pos, crystals: bool) -> nat
    decreases rs.len(),
{
    if rs.len() == 0 {
        0
    } else {
        deposit_share(rs[0]@, base, crystals) + deposit_load(rs.drop_first(), base, crystals)
    }
}

/// Cell `p` holds at least one unit.
pub open spec fn stocked_at(s: &SimulationState, p: Pos) -> bool {
    s.resource_quantities.spec_get(p) matches Some(q) && q > 0
}

/// What robot `id` carries, once it has taken a unit from its cell if it is
/// standing on a stocked crystal or energy cell, adds up within a `u32`.
pub open spec fn collect_fits(s: &SimulationState, id: int) -> bool {
    let r = s.robots@[id]@;
    let q = s.resource_quantities.spec_get(r.position);
    let t = terrain_at(&s.map, r.position.0 as int, r.position.1 as int);
    let gain: int = if q is Some && q->0 > 0 && (t == Terrain::Crystal || t == Terrain::Energy) {
        1
    } else {
        0
    };
    r.carried_crystals + r.carried_energy + gain <= u32::MAX
}

/// When robot `id` is about to enter the base, the deposits with its load
/// added stay within a `u32`.
pub open spec fn deposit_fits(s: &SimulationState, id: int) -> bool {
    let r = s.robots@[id]@;
    r.path.len() > 0 && r.path[0] == s.base_pos ==> {
        &&& s.deposited_crystals + r.carried_crystals <= u32::MAX
        &&& s.deposited_energy + r.carried_energy <= u32::MAX
    }
}

impl SimulationState {
    /// Crystals deposited, carried, and left on crystal cells.
    pub open spec fn crystal_mass(&self) -> nat {
        self.deposited_crystals as nat + carried(self.robots@, true) + quantity_on(
            self.resource_quantities@,
            &self.map,
            Some(Terrain::Crystal),
        )
    }

    /// Energy deposited, carried, and left on energy cells.
    pub open spec fn energy_mass(&self) -> nat {
        self.deposited_energy as nat + carried(self.robots@, false) + quantity_on(
            self.resource_quantities@,
            &self.map,
            Some(Terrain::Energy),
        )
    }

    /// All resources: deposited, carried, and left anywhere in the ground.
    pub open spec fn mass(&self) -> nat {
        self.deposited_crystals as nat + self.deposited_energy as nat + carried(self.robots@, true)
            + carried(self.robots@, false) + quantity_on(self.resource_quantities@, &self.map, None)
    }

    /// Resources deposited or carried: what the `u32` counters hold between them.
    pub open spec fn counted(&self) -> nat {
        self.deposited_crystals as nat + self.deposited_energy as nat + carried(self.robots@, true)
            + carried(self.robots@, false)
    }

    /// The counters robot `id`'s next tick adds to stay within a `u32`.
    pub open spec fn counters_fit(&self, id: int) -> bool {
        let r = self.robots@[id]@;
        &&& r.robot_type == RobotType::Collector && r.state == RobotState::Collecting ==> collect_fits(self, id)
        &&& r.robot_type == RobotType::Collector && r.state == RobotState::ReturningToBase ==> deposit_fits(
            self,
            id,
        )
    }

    /// No counter overflows in a round where every robot takes its next
    /// tick: each collecting collector's load with one more unit fits in a
    /// `u32`, and so does each kind of deposit with the loads of the
    /// collectors about to enter the base.
    pub open spec fn round_fits(&self) -> bool {
        &&& forall|i: int|
            0 <= i < self.robots@.len() && (#[trigger] self.robots@[i])@.robot_type == RobotType::Collector
                && self.robots@[i]@.state == RobotState::Collecting ==> collect_fits(self, i)
        &&& self.deposited_crystals + deposit_load(self.robots@, self.base_pos, true) <= u32::MAX
        &&& self.deposited_energy + deposit_load(self.robots@, self.base_pos, false) <= u32::MAX
    }

    /// The map is a well-formed grid of the state's sizes, and the base test
    /// can be applied around the base.
    pub open spec fn shape_ok(&self) -> bool {
        &&& grid_wf(&self.map)
        &&& self.map@.len() == self.height
        &&& self.map@[0]@.len() == self.width
        &&& self.base_pos.0 < u16::MAX
        &&& self.base_pos.1 < u16::MAX
    }

    /// The invariant every tick keeps.
    pub open spec fn wf(&self) -> bool {
        &&& grid_wf(&self.map)
        &&& self.map@.len() == self.height
        &&& self.map@[0]@.len() == self.width
        &&& size_ok(self.width as int)
        &&& size_ok(self.height as int)
        &&& self.width * self.height <= usize::MAX
        &&& self.base_pos.0 < u16::MAX
        &&& self.base_pos.1 < u16::MAX
        &&& forall|i: int| 0 <= i < self.robots@.len() ==> robot_ok(#[trigger] self.robots@[i]@)
        &&& self.collected_crystals.wf()
        &&& self.collected_energy.wf()
        &&& self.discovered_crystals.wf()
        &&& self.discovered_energy.wf()
        &&& forall|i: int|
            0 <= i < self.discovered_crystals@.len() ==> pos_ok(#[trigger] self.discovered_crystals@[i])
        &&& forall|i: int|
            0 <= i < self.discovered_energy@.len() ==> pos_ok(#[trigger] self.discovered_energy@[i])
        &&& self.resource_quantities.wf()
    }

    /// Map, sizes and base are those of `old`.
    pub open spec fn same_world(&self, old: &Self) -> bool {
        &&& self.map == old.map
        &&& self.width == old.width
        &&& self.height == old.height
        &&& self.base_pos == old.base_pos
    }

    /// Sets, deposits and quantities are those of `old`.
    pub open spec fn same_stocks(&self, old: &Self) -> bool {
        &&& self.collected_crystals@ == old.collected_crystals@
        &&& self.collected_energy@ == old.collected_energy@
        &&& self.discovered_crystals@ == old.discovered_crystals@
        &&& self.discovered_energy@ == old.discovered_energy@
        &&& self.deposited_crystals == old.deposited_crystals
        &&& self.deposited_energy == old.deposited_energy
        &&& self.resource_quantities@ == old.resource_quantities@
    }

    /// The robots are those of `old` but for robot `id`, which is `r`.
    pub open spec fn robot_becomes(&self, old: &Self, id: int, r: RobotView) -> bool {
        &&& self.robots@.len() == old.robots@.len()
        &&& self.robots@[id]@ == r
        &&& forall|j: int| 0 <= j < self.robots@.len() && j != id ==> #[trigger] self.robots@[j]@ == old.robots@[j]@
    }

    /// Only robot `id` changed, and it became `r`.
    pub open spec fn only_robot_becomes(&self, old: &Self, id: int, r: RobotView) -> bool {
        &&& self.same_world(old)
        &&& self.same_stocks(old)
        &&& self.robot_becomes(old, id, r)
    }

    /// The inputs of `bfs` from robot position `from` on this state's map.
    pub open spec fn route_from(&self, from: Pos, to: Pos, p: Seq<Pos>) -> bool {
        &&& bfs_result(&self.map, self.width as int, self.height as int, self.base_pos, from, to, p)
        &&& p == bfs_route(&self.map, self.width as int, self.height as int, self.base_pos, from, to)
    }

    /// A state with the given map, base, robots and resources, nothing
    /// discovered, collected or deposited.
    pub fn with_resources(
        map: Vec<Vec<Terrain>>,
        base_pos: (u16, u16),
        robots: Vec<Robot>,
        resources: ResourceMap,
    ) -> (st: Self)
        requires
            grid_wf(&map),
            size_ok(map@[0]@.len() as int),
            size_ok(map@.len() as int),
            map@[0]@.len() * map@.len() <= usize::MAX,
            base_pos.0 < u16::MAX,
            base_pos.1 < u16::MAX,
            forall|i: int| 0 <= i < robots@.len() ==> robot_ok(#[trigger] robots@[i]@),
            resources.wf(),
        ensures
            st.wf(),
            st.map == map,
            st.width == map@[0]@.len(),
            st.height == map@.len(),
            st.base_pos == base_pos,
            st.robots@ == robots@,
            st.collected_crystals@.len() == 0,
            st.collected_energy@.len() == 0,
            st.discovered_crystals@.len() == 0,
            st.discovered_energy@.len() == 0,
            st.deposited_crystals == 0,
            st.deposited_energy == 0,
            st.resource_quantities@ == resources@,
    {
        let width = map[0].len();
        let height = map.len();
        Self {
            map,
            width,
            height,
            base_pos,
            robots,
            collected_crystals: PositionSet::new(),
            collected_energy: PositionSet::new(),
            deposited_crystals: 0,
            deposited_energy: 0,
            discovered_crystals: PositionSet::new(),
            discovered_energy: PositionSet::new(),
            resource_quantities: resources,
        }
    }

    /// A state with the given map, base and robots, nothing discovered,
    /// collected or deposited, and no resources in the ground.
    pub fn new(map: Vec<Vec<Terrain>>, base_pos: (u16, u16), robots: Vec<Robot>) -> (s: Self)
        requires
            grid_wf(&map),
            size_ok(map@[0]@.len() as int),
            size_ok(map@.len() as int),
            map@[0]@.len() * map@.len() <= usize::MAX,
            base_pos.0 < u16::MAX,
            base_pos.1 < u16::MAX,
            forall|i: int| 0 <= i < robots@.len() ==> robot_ok(#[trigger] robots@[i]@),
        ensures
            s.wf(),
            s.map == map,
            s.width == map@[0]@.len(),
            s.height == map@.len(),
            s.base_pos == base_pos,
            s.robots@ == robots@,
            s.collected_crystals@.len() == 0,
            s.collected_energy@.len() == 0,
            s.discovered_crystals@.len() == 0,
            s.discovered_energy@.len() == 0,
            s.deposited_crystals == 0,
            s.deposited_energy == 0,
            s.resource_quantities@.len() == 0,
    {
        let width = map[0].len();
        let height = map.len();
        let s = Self {
            map,
            width,
            height,
            base_pos,
            robots,
            collected_crystals: PositionSet::new(),
            collected_energy: PositionSet::new(),
            deposited_crystals: 0,
            deposited_energy: 0,
            discovered_crystals: PositionSet::new(),
            discovered_energy: PositionSet::new(),
            resource_quantities: ResourceMap::new(),
        };
        s
    }
}

proof fn lemma_carried_prefix(rs: Seq<Robot>, k: int)
    requires
        0 <= k <= rs.len(),
    ensures
        carried(rs.take(k), true) <= carried(rs, true),
        carried(rs.take(k), false) <= carried(rs, false),
    decreases rs.len() - k,
{
    if k < rs.len() {
        lemma_carried_prefix(rs, k + 1);
        assert(rs.take(k + 1).drop_last() == rs.take(k));
    } else {
        assert(rs.take(k) == rs);
    }
}

proof fn lemma_quantity_prefix(s: Seq<(Pos, u32)>, k: int, map: &Vec<Vec<Terrain>>)
    requires
        0 <= k <= s.len(),
    ensures
        quantity_on(s.take(k), map, None) <= quantity_on(s, map, None),
    decreases s.len() - k,
{
    if k < s.len() {
        lemma_quantity_prefix(s, k + 1, map);
        assert(s.take(k + 1).drop_last() == s.take(k));
    } else {
        assert(s.take(k) == s);
    }
}

/// A change to one robot that keeps what it carries keeps the invariant and
/// every resource count.
pub proof fn lemma_robot_moved(old: &SimulationState, new: &SimulationState, id: int)
    requires
        old.wf(),
        0 <= id < old.robots@.len(),
        new.same_world(old),
        new.same_stocks(old),
        new.robots@ == old.robots@.update(id, new.robots@[id]),
        new.robots@[id].carried_crystals == old.robots@[id].carried_crystals,
        new.robots@[id].carried_energy == old.robots@[id].carried_energy,
        robot_ok(new.robots@[id]@),
    ensures
        new.wf(),
        new.crystal_mass() == old.crystal_mass(),
        new.energy_mass() == old.energy_mass(),
        new.mass() == old.mass(),
        new.counted() == old.counted(),
{
    lemma_carried_update(old.robots@, id, new.robots@[id], true);
    lemma_carried_update(old.robots@, id, new.robots@[id], false);
    assert forall|i: int| 0 <= i < new.robots@.len() implies robot_ok(#[trigger] new.robots@[i]@) by {
        if i != id {
            assert(new.robots@[i] == old.robots@[i]);
        }
    }
}

/// Moves everything robot `robot_id` carries into the deposits and sets it
/// exploring again.
pub fn deposit_resources(state: &mut SimulationState, robot_id: usize)
    requires
        robot_id < old(state).robots@.len(),
        old(state).deposited_crystals + old(state).robots@[robot_id as int].carried_crystals <= u32::MAX,
        old(state).deposited_energy + old(state).robots@[robot_id as int].carried_energy <= u32::MAX,
    ensures
        final(state).same_world(old(state)),
        final(state).deposited_crystals == old(state).deposited_crystals + old(state).robots@[robot_id as int].carried_crystals,
        final(state).deposited_energy == old(state).deposited_energy + old(state).robots@[robot_id as int].carried_energy,
        final(state).collected_crystals@ == old(state).collected_crystals@,
        final(state).collected_energy@ == old(state).collected_energy@,
        final(state).discovered_crystals@ == old(state).discovered_crystals@,
        final(state).discovered_energy@ == old(state).discovered_energy@,
        final(state).resource_quantities@ == old(state).resource_quantities@,
        final(state).robot_becomes(
            old(state),
            robot_id as int,
            RobotView {
                carried_crystals: 0,
                carried_energy: 0,
                state: RobotState::Exploring,
                ..old(state).robots@[robot_id as int]@
            },
        ),
        final(state).robots@ == old(state).robots@.update(robot_id as int, final(state).robots@[robot_id as int]),
{
    state.deposited_crystals = state.deposited_crystals + state.robots[robot_id].carried_crystals;
    state.deposited_energy = state.deposited_energy + state.robots[robot_id].carried_energy;
    state.robots[robot_id].carried_crystals = 0;
    state.robots[robot_id].carried_energy = 0;
    state.robots[robot_id].state = RobotState::Exploring;
}

/// The cell one step away in direction `d` is one a robot may side-step onto.
pub open spec fn sidestep_allowed(s: &SimulationState, occupied: Set<Pos>, from: Pos, d: (i16, i16)) -> bool {
    let n = step(from, d, s.width as int, s.height as int);
    &&& terrain_at(&s.map, n.0 as int, n.1 as int) != Terrain::Obstacle
    &&& !occupied.contains(n)
    &&& !in_base(n.0 as int, n.1 as int, s.base_pos)
}

/// The first direction (up, down, left, right) a robot on `from` may side-step in.
pub open spec fn first_sidestep(s: &SimulationState, occupied: Set<Pos>, from: Pos) -> Option<int> {
    if sidestep_allowed(s, occupied, from, dir(0)) {
        Some(0)
    } else if sidestep_allowed(s, occupied, from, dir(1)) {
        Some(1)
    } else if sidestep_allowed(s, occupied, from, dir(2)) {
        Some(2)
    } else if sidestep_allowed(s, occupied, from, dir(3)) {
        Some(3)
    } else {
        None
    }
}

/// Moves robot `robot_id` one cell sideways (trying up, down, left, right) to
/// the first cell that is free of obstacles, other robots and the base.
/// Returns whether it moved.
pub fn step_sideways(state: &mut SimulationState, robot_id: usize, occupied: &PositionSet) -> (moved: bool)
    requires
        old(state).wf(),
        robot_id < old(state).robots@.len(),
    ensures
        match first_sidestep(old(state), occupied@.to_set(), old(state).robots@[robot_id as int].position) {
            Some(k) => moved && final(state).only_robot_becomes(
                old(state),
                robot_id as int,
                RobotView {
                    position: step(
                        old(state).robots@[robot_id as int].position,
                        dir(k),
                        old(state).width as int,
                        old(state).height as int,
                    ),
                    ..old(state).robots@[robot_id as int]@
                },
            ),
            None => !moved && final(state).only_robot_becomes(
                old(state),
                robot_id as int,
                old(state).robots@[robot_id as int]@,
            ),
        },
        final(state).robots@ == old(state).robots@.update(robot_id as int, final(state).robots@[robot_id as int]),
{
    let ghost old_s = *state;
    let current_pos = state.robots[robot_id].position;
    let width = state.width;
    let height = state.height;
    let base_pos = state.base_pos;
    assert(robot_ok(state.robots@[robot_id as int]@));
    let mut k: usize = 0;
    let mut found = false;
    let mut np: Pos = current_pos;
    while !found && k < 4
        invariant
            k <= 4,
            *state == old_s,
            old_s.wf(),
            robot_id < old_s.robots@.len(),
            current_pos == old_s.robots@[robot_id as int].position,
            pos_ok(current_pos),
            width == old_s.width,
            height == old_s.height,
            base_pos == old_s.base_pos,
            forall|e: int| 0 <= e < k ==> !sidestep_allowed(&old_s, occupied@.to_set(), current_pos, #[trigger] dir(e)),
            found ==> k < 4 && sidestep_allowed(&old_s, occupied@.to_set(), current_pos, dir(k as int)) && np == step(
                current_pos,
                dir(k as int),
                width as int,
                height as int,
            ),
        decreases 4 - k + if found {
            0int
        } else {
            1int
        },
    {
        let (dx, dy) = direction(k);
        let nx = clamped_step(current_pos.0, dx, width);
        let ny = clamped_step(current_pos.1, dy, height);
        proof {
            lemma_grid_cell_defined(&state.map, nx as int, ny as int);
        }
        if !is_obstacle(&state.map, nx, ny) && !occupied.contains(&(nx, ny)) && !is_base_cell(
            nx,
            ny,
            base_pos,
        ) {
            found = true;
            np = (nx, ny);
        } else {
            k += 1;
        }
    }
    if found {
        state.robots[robot_id].position = np;
        proof {
            assert(state.robots@ =~= old_s.robots@.update(robot_id as int, state.robots@[robot_id as int]));
            lemma_robot_moved(&old_s, state, robot_id as int);
            if k > 0 {
                assert(!sidestep_allowed(&old_s, occupied@.to_set(), current_pos, dir(0)));
            }
            if k > 1 {
                assert(!sidestep_allowed(&old_s, occupied@.to_set(), current_pos, dir(1)));
            }
            if k > 2 {
                assert(!sidestep_allowed(&old_s, occupied@.to_set(), current_pos, dir(2)));
            }
        }
    } else {
        proof {
            assert(!sidestep_allowed(&old_s, occupied@.to_set(), current_pos, dir(0)));
            assert(!sidestep_allowed(&old_s, occupied@.to_set(), current_pos, dir(1)));
            assert(!sidestep_allowed(&old_s, occupied@.to_set(), current_pos, dir(2)));
            assert(!sidestep_allowed(&old_s, occupied@.to_set(), current_pos, dir(3)));
        }
    }
    found
}

/// What `reroute_path` leaves: robot `id` stands on the first cell of the
/// route `bfs` finds to `target` and keeps the rest as its path when there is
/// a route, and is unchanged otherwise (`found` tells which).
pub open spec fn rerouted(old: &SimulationState, new: &SimulationState, id: int, target: Pos, found: bool) -> bool {
    let r = old.robots@[id]@;
    &&& found == (r.position != target && reachable(
        &old.map,
        old.width as int,
        old.height as int,
        old.base_pos,
        r.position,
        target,
    ))
    &&& found ==> exists|p: Seq<Pos>|
        #[trigger] is_shortest_route(
            &old.map,
            old.width as int,
            old.height as int,
            old.base_pos,
            r.position,
            target,
            p,
        ) && p == bfs_route(&old.map, old.width as int, old.height as int, old.base_pos, r.position, target) && new.only_robot_becomes(old, id, RobotView { position: p[0], path: p.drop_first(), ..r })
    &&& !found ==> new.only_robot_becomes(old, id, r)
}

/// Searches a new route from robot `robot_id` to `target` and, when there is
/// one, moves the robot one step along it. Returns whether a route was found.
pub fn reroute_path(state: &mut SimulationState, robot_id: usize, target: (u16, u16)) -> (found: bool)
    requires
        old(state).wf(),
        robot_id < old(state).robots@.len(),
    ensures
        rerouted(old(state), final(state), robot_id as int, target, found),
        final(state).wf(),
        final(state).crystal_mass() == old(state).crystal_mass(),
        final(state).energy_mass() == old(state).energy_mass(),
        final(state).mass() == old(state).mass(),
        final(state).robots@ == old(state).robots@.update(robot_id as int, final(state).robots@[robot_id as int]),
{
    let ghost old_s = *state;
    let current_pos = state.robots[robot_id].position;
    assert(robot_ok(state.robots@[robot_id as int]@));
    let new_path = bfs(
        &state.map,
        &state.collected_crystals,
        &state.collected_energy,
        current_pos,
        target,
        state.width,
        state.height,
        state.base_pos,
    );
    let ghost p = new_path@;
    if new_path.len() > 0 {
        proof {
            lemma_walk_interior(
                &old_s.map,
                old_s.width as int,
                old_s.height as int,
                old_s.base_pos,
                current_pos,
                target,
                p,
            );
        }
        state.robots[robot_id].path = new_path;
        let next = state.robots[robot_id].path.pop_front();
        if let Some(new_next) = next {
            state.robots[robot_id].position = new_next;
        }
        proof {
            let r = state.robots@[robot_id as int]@;
            assert(state.robots@ =~= old_s.robots@.update(robot_id as int, state.robots@[robot_id as int]));
            assert(r.path == p.drop_first());
            assert(forall|i: int| 0 <= i < r.path.len() ==> #[trigger] r.path[i] == p[i + 1]);
            lemma_robot_moved(&old_s, state, robot_id as int);
            assert(is_shortest_route(
                &old_s.map,
                old_s.width as int,
                old_s.height as int,
                old_s.base_pos,
                current_pos,
                target,
                p,
            ));
        }
        true
    } else {
        false
    }
}

/// `s` with `p` added at the end unless it is already there.
pub open spec fn set_insert(s: Seq<Pos>, p: Pos) -> Seq<Pos> {
    if s.contains(p) {
        s
    } else {
        s.push(p)
    }
}

/// The collector is full once it carries this many resources.
pub const COLLECTOR_CAPACITY: u32 = 25;

/// What a collecting tick leaves: one unit is taken from a stocked cell (and
/// carried if the cell is a crystal or energy cell); a cell emptied by that
/// is marked collected; and the robot heads home, along what `bfs` finds,
/// once it is full or the cell is exhausted.
pub open spec fn collecting_outcome(old: &SimulationState, new: &SimulationState, id: int) -> bool {
    let r = old.robots@[id]@;
    let pos = r.position;
    let t = terrain_at(&old.map, pos.0 as int, pos.1 as int);
    let q = old.resource_quantities.spec_get(pos);
    let took = q is Some && q->0 > 0;
    let left = if took {
        q->0 - 1
    } else {
        0
    };
    let gained_c = took && t == Terrain::Crystal;
    let gained_e = took && t == Terrain::Energy;
    let cc = r.carried_crystals + if gained_c {
        1int
    } else {
        0int
    };
    let ce = r.carried_energy + if gained_e {
        1int
    } else {
        0int
    };
    let depleted = q == Some(0u32) || ((gained_c || gained_e) && left == 0);
    let nr = new.robots@[id]@;
    &&& forall|p: Pos|
        #[trigger] new.resource_quantities.spec_get(p) == if p == pos && took {
            Some(left as u32)
        } else {
            old.resource_quantities.spec_get(p)
        }
    &&& new.collected_crystals@ == if gained_c && left == 0 {
        set_insert(old.collected_crystals@, pos)
    } else {
        old.collected_crystals@
    }
    &&& new.collected_energy@ == if gained_e && left == 0 {
        set_insert(old.collected_energy@, pos)
    } else {
        old.collected_energy@
    }
    &&& new.robots@.len() == old.robots@.len()
    &&& forall|j: int| 0 <= j < new.robots@.len() && j != id ==> #[trigger] new.robots@[j]@ == old.robots@[j]@
    &&& nr.position == pos
    &&& nr.robot_type == r.robot_type
    &&& nr.preferred_dir == r.preferred_dir
    &&& nr.carried_crystals == cc
    &&& nr.carried_energy == ce
    &&& if cc + ce >= COLLECTOR_CAPACITY || depleted {
        nr.state == RobotState::ReturningToBase && old.route_from(pos, old.base_pos, nr.path)
    } else {
        nr.state == r.state && nr.path == r.path
    }
}

/// One tick of a collector standing on a resource: extracts one unit,
/// marks an exhausted crystal or energy cell as collected, and sends the
/// robot back to base when it is full or the resource has run out.
#[verifier::rlimit(80)]
#[verifier::spinoff_prover]
pub fn tick_collector_collecting(state: &mut SimulationState, robot_id: usize)
    requires
        old(state).wf(),
        robot_id < old(state).robots@.len(),
        collect_fits(old(state), robot_id as int),
    ensures
        final(state).counted() <= old(state).counted() + 1,
        final(state).wf(),
        final(state).same_world(old(state)),
        final(state).discovered_crystals@ == old(state).discovered_crystals@,
        final(state).discovered_energy@ == old(state).discovered_energy@,
        final(state).deposited_crystals == old(state).deposited_crystals,
        final(state).deposited_energy == old(state).deposited_energy,
        collecting_outcome(old(state), final(state), robot_id as int),
        final(state).crystal_mass() == old(state).crystal_mass(),
        final(state).energy_mass() == old(state).energy_mass(),
        final(state).mass() <= old(state).mass(),
{
    let ghost old_s = *state;
    let ghost id = robot_id as int;
    let pos = state.robots[robot_id].position;
    let base_pos = state.base_pos;
    let mut resource_depleted = false;
    proof {
        lemma_grid_cell_defined(&state.map, pos.0 as int, pos.1 as int);
        lemma_lookup_index(state.resource_quantities@, pos);
        lemma_carried_bound(state.robots@, id);
    }
    assert(robot_ok(state.robots@[id]@));
    match state.resource_quantities.get(pos) {
        Some(qty) => {
            if qty > 0 {
                let ghost s0 = state.resource_quantities@;
                let ghost i = choose|i: int| 0 <= i < s0.len() && #[trigger] s0[i].0 == pos;
                proof {
                    lemma_quantity_bound(s0, i, &state.map, None);
                    lemma_quantity_update(s0, i, (qty - 1) as u32, &state.map, None);
                    lemma_quantity_update(s0, i, (qty - 1) as u32, &state.map, Some(Terrain::Crystal));
                    lemma_quantity_update(s0, i, (qty - 1) as u32, &state.map, Some(Terrain::Energy));
                }
                let left = qty - 1;
                state.resource_quantities.insert(pos, left);
                proof {
                    let s1 = state.resource_quantities@;
                    let j = choose|j: int|
                        0 <= j < s0.len() && s0[j] == (pos, qty) && s1 == s0.update(j, (pos, left));
                    assert(j == i);
                }
                if is_crystal(&state.map, pos.0, pos.1) {
                    let ghost rs0 = state.robots@;
                    state.robots[robot_id].carried_crystals = state.robots[robot_id].carried_crystals + 1;
                    proof {
                        assert(state.robots@ =~= rs0.update(id, state.robots@[id]));
                        lemma_carried_update(rs0, id, state.robots@[id], true);
                        lemma_carried_update(rs0, id, state.robots@[id], false);
                    }
                    if left == 0 {
                        resource_depleted = true;
                        state.collected_crystals.insert(pos);
                    }
                } else if is_energy(&state.map, pos.0, pos.1) {
                    let ghost rs0 = state.robots@;
                    state.robots[robot_id].carried_energy = state.robots[robot_id].carried_energy + 1;
                    proof {
                        assert(state.robots@ =~= rs0.update(id, state.robots@[id]));
                        lemma_carried_update(rs0, id, state.robots@[id], true);
                        lemma_carried_update(rs0, id, state.robots@[id], false);
                    }
                    if left == 0 {
                        resource_depleted = true;
                        state.collected_energy.insert(pos);
                    }
                }
            } else {
                resource_depleted = true;
            }
        },
        None => {},
    }
    proof {
        assert(state.robots@ =~= old_s.robots@.update(id, state.robots@[id]));
        assert forall|j: int| 0 <= j < state.robots@.len() implies robot_ok(#[trigger] state.robots@[j]@) by {
            if j != id {
                assert(state.robots@[j] == old_s.robots@[j]);
            } else {
                assert(robot_ok(old_s.robots@[id]@));
                assert(state.robots@[id]@.path == old_s.robots@[id]@.path);
                assert(state.robots@[id]@.position == old_s.robots@[id]@.position);
                assert(state.robots@[id]@.preferred_dir == old_s.robots@[id]@.preferred_dir);
            }
        }
        assert(state.crystal_mass() == old_s.crystal_mass());
        assert(state.energy_mass() == old_s.energy_mass());
        assert(state.mass() <= old_s.mass());
        assert(state.wf());
        lemma_carried_bound(state.robots@, id);
    }
    let total_carried = state.robots[robot_id].carried_crystals + state.robots[robot_id].carried_energy;
    if total_carried >= COLLECTOR_CAPACITY || resource_depleted {
        let ghost mid = *state;
        let path = bfs(
            &state.map,
            &state.collected_crystals,
            &state.collected_energy,
            pos,
            base_pos,
            state.width,
            state.height,
            base_pos,
        );
        proof {
            if path@.len() > 0 {
                lemma_walk_interior(
                    &state.map,
                    state.width as int,
                    state.height as int,
                    base_pos,
                    pos,
                    base_pos,
                    path@,
                );
            }
        }
        state.robots[robot_id].path = path;
        state.robots[robot_id].state = RobotState::ReturningToBase;
        proof {
            assert(state.robots@ =~= mid.robots@.update(id, state.robots@[id]));
            lemma_robot_moved(&mid, state, id);
        }
    }
    proof {
        assert forall|j: int| 0 <= j < state.robots@.len() implies robot_ok(#[trigger] state.robots@[j]@) by {
            if j != id {
                assert(state.robots@[j] == old_s.robots@[j]);
            }
        }
    }
}

/// The robot view after a collector on its way to a resource took its next
/// step: it enters the next cell of its path when that cell is free; when the
/// cell is occupied it re-plans, along the route `bfs` finds, to the end of its path and
/// takes its first step, or gives up and explores when there is none.
pub open spec fn moving_first_step(old: &SimulationState, id: int, occupied: Set<Pos>, r1: RobotView) -> bool {
    let r = old.robots@[id]@;
    if r.path.len() == 0 {
        r1 == r
    } else {
        let next = r.path[0];
        let rest = r.path.drop_first();
        if occupied.contains(next) {
            let target = r.path.last();
            if r.position != target && reachable(
                &old.map,
                old.width as int,
                old.height as int,
                old.base_pos,
                r.position,
                target,
            ) {
                exists|p: Seq<Pos>|
                    #[trigger] is_shortest_route(
                        &old.map,
                        old.width as int,
                        old.height as int,
                        old.base_pos,
                        r.position,
                        target,
                        p,
                    ) && p == bfs_route(&old.map, old.width as int, old.height as int, old.base_pos, r.position, target) && r1 == (RobotView { position: p[0], path: p.drop_first(), ..r })
            } else {
                r1 == (RobotView { path: Seq::empty(), state: RobotState::Exploring, ..r })
            }
        } else {
            r1 == (RobotView { position: next, path: rest, ..r })
        }
    }
}

/// A collector that has used up its path while moving to a resource starts
/// collecting when its cell holds some, and explores otherwise.
pub open spec fn settle_moving(s: &SimulationState, r1: RobotView) -> RobotView {
    if r1.path.len() == 0 && r1.state == RobotState::MovingToResource {
        let q = s.resource_quantities.spec_get(r1.position);
        RobotView {
            state: if q is Some && q->0 > 0 {
                RobotState::Collecting
            } else {
                RobotState::Exploring
            },
            ..r1
        }
    } else {
        r1
    }
}

/// A moving collector whose next cell is taken and that found a new route
/// to the end of its path has taken the first step of that route.
proof fn lemma_rerouted_step(
    old_s: &SimulationState,
    popped: &SimulationState,
    state: &SimulationState,
    id: int,
    target: Pos,
    occupied: Set<Pos>,
)
    requires
        0 <= id < old_s.robots@.len(),
        old_s.robots@[id]@.path.len() > 0,
        occupied.contains(old_s.robots@[id]@.path[0]),
        target == old_s.robots@[id]@.path.last(),
        popped.same_world(old_s),
        popped.same_stocks(old_s),
        popped.robots@.len() == old_s.robots@.len(),
        popped.robots@[id]@ == (RobotView { path: old_s.robots@[id]@.path.drop_first(), ..old_s.robots@[id]@ }),
        forall|j: int| 0 <= j < old_s.robots@.len() && j != id ==> #[trigger] popped.robots@[j]@ == old_s.robots@[j]@,
        rerouted(popped, state, id, target, true),
    ensures
        moving_first_step(old_s, id, occupied, state.robots@[id]@),
{
    let r = old_s.robots@[id]@;
    let p = choose|p: Seq<Pos>|
        #[trigger] is_shortest_route(
            &popped.map,
            popped.width as int,
            popped.height as int,
            popped.base_pos,
            r.position,
            target,
            p,
        ) && p == bfs_route(&popped.map, popped.width as int, popped.height as int, popped.base_pos, r.position, target) && state.only_robot_becomes(
            popped,
            id,
            RobotView { position: p[0], path: p.drop_first(), ..popped.robots@[id]@ },
        );
    assert(state.robots@[id]@ == (RobotView { position: p[0], path: p.drop_first(), ..r }));
    assert(is_shortest_route(
        &old_s.map,
        old_s.width as int,
        old_s.height as int,
        old_s.base_pos,
        r.position,
        target,
        p,
    ));
}

/// The first half of a moving collector's tick: the step along its path.
#[verifier::rlimit(60)]
#[verifier::spinoff_prover]
fn advance_moving(
    state: &mut SimulationState,
    robot_id: usize,
    occupied: &PositionSet,
)
    requires
        old(state).wf(),
        robot_id < old(state).robots@.len(),
    ensures
        final(state).wf(),
        moving_first_step(old(state), robot_id as int, occupied@.to_set(), final(state).robots@[robot_id as int]@),
        final(state).only_robot_becomes(old(state), robot_id as int, final(state).robots@[robot_id as int]@),
        final(state).crystal_mass() == old(state).crystal_mass(),
        final(state).energy_mass() == old(state).energy_mass(),
        final(state).mass() == old(state).mass(),
{
    let ghost old_s = *state;
    let ghost id = robot_id as int;
    let ghost r = old_s.robots@[id]@;
    assert(robot_ok(r));
    let next = state.robots[robot_id].path.pop_front();
    proof {
        assert(state.robots@ =~= old_s.robots@.update(id, state.robots@[id]));
        assert forall|i: int| 0 <= i < state.robots@[id]@.path.len() implies pos_ok(
            #[trigger] state.robots@[id]@.path[i],
        ) by {
            assert(state.robots@[id]@.path[i] == r.path[i + 1]);
        }
        lemma_robot_moved(&old_s, state, id);
    }
    let ghost popped = *state;
    match next {
        Some(next) => {
            if occupied.contains(&next) {
                let n = state.robots[robot_id].path.len();
                let target = if n > 0 {
                    state.robots[robot_id].path[n - 1]
                } else {
                    next
                };
                proof {
                    assert(target == r.path.last());
                }
                let found = reroute_path(state, robot_id, target);
                if !found {
                    let ghost before = *state;
                    state.robots[robot_id].path.clear();
                    state.robots[robot_id].state = RobotState::Exploring;
                    proof {
                        assert(state.robots@ =~= before.robots@.update(id, state.robots@[id]));
                        lemma_robot_moved(&before, state, id);
                        assert(state.robots@[id]@ == (RobotView {
                            path: Seq::empty(),
                            state: RobotState::Exploring,
                            ..r
                        }));
                        assert(moving_first_step(&old_s, id, occupied@.to_set(), state.robots@[id]@));
                    }
                } else {
                    proof {
                        lemma_rerouted_step(&old_s, &popped, state, id, target, occupied@.to_set());
                        assert(moving_first_step(&old_s, id, occupied@.to_set(), state.robots@[id]@));
                    }
                }
            } else {
                let ghost before = *state;
                assert(pos_ok(r.path[0]));
                state.robots[robot_id].position = next;
                proof {
                    assert(state.robots@ =~= before.robots@.update(id, state.robots@[id]));
                    lemma_robot_moved(&before, state, id);
                    assert(moving_first_step(&old_s, id, occupied@.to_set(), state.robots@[id]@));
                }
            }
        },
        None => {
            assert(moving_first_step(&old_s, id, occupied@.to_set(), state.robots@[id]@));
        },
    }
}

/// One tick of a collector moving towards a resource.
pub fn tick_collector_moving_to_resource(
    state: &mut SimulationState,
    robot_id: usize,
    occupied: &PositionSet,
)
    requires
        old(state).wf(),
        robot_id < old(state).robots@.len(),
    ensures
        final(state).wf(),
        exists|r1: RobotView|
            #[trigger] moving_first_step(old(state), robot_id as int, occupied@.to_set(), r1)
                && final(state).only_robot_becomes(old(state), robot_id as int, settle_moving(old(state), r1)),
        final(state).crystal_mass() == old(state).crystal_mass(),
        final(state).energy_mass() == old(state).energy_mass(),
        final(state).mass() == old(state).mass(),
{
    let ghost old_s = *state;
    let ghost id = robot_id as int;
    advance_moving(state, robot_id, occupied);
    let ghost r1 = state.robots@[id]@;
    assert(moving_first_step(&old_s, id, occupied@.to_set(), r1));

    if state.robots[robot_id].path.len() == 0 && state.robots[robot_id].state
        == RobotState::MovingToResource {
        let pos = state.robots[robot_id].position;
        let qty = match state.resource_quantities.get(pos) {
            Some(q) => q,
            None => 0,
        };
        let ghost before = *state;
        state.robots[robot_id].state = if qty > 0 {
            RobotState::Collecting
        } else {
            RobotState::Exploring
        };
        proof {
            assert(state.robots@ =~= before.robots@.update(id, state.robots@[id]));
            lemma_robot_moved(&before, state, id);
        }
    }
}

/// What a returning collector does in one tick: with no path left it starts
/// exploring; otherwise it enters the next cell of its path unless another
/// robot stands there (the base itself is always entered), depositing its
/// load on reaching the base. Blocked, it re-plans the route `bfs` finds to the
/// base and takes its first step, or side-steps, or waits with its path intact.
pub open spec fn returning_outcome(
    old: &SimulationState,
    new: &SimulationState,
    id: int,
    occupied: Set<Pos>,
) -> bool {
    let r = old.robots@[id]@;
    let base = old.base_pos;
    if r.path.len() == 0 {
        new.only_robot_becomes(old, id, RobotView { state: RobotState::Exploring, ..r })
    } else {
        let next = r.path[0];
        let rest = r.path.drop_first();
        if occupied.contains(next) && next != base {
            if r.position != base && reachable(
                &old.map,
                old.width as int,
                old.height as int,
                base,
                r.position,
                base,
            ) {
                exists|p: Seq<Pos>|
                    #[trigger] is_shortest_route(
                        &old.map,
                        old.width as int,
                        old.height as int,
                        base,
                        r.position,
                        base,
                        p,
                    ) && p == bfs_route(&old.map, old.width as int, old.height as int, base, r.position, base) && new.only_robot_becomes(
                        old,
                        id,
                        RobotView { position: p[0], path: p.drop_first(), ..r },
                    )
            } else {
                match first_sidestep(old, occupied, r.position) {
                    Some(k) => new.only_robot_becomes(
                        old,
                        id,
                        RobotView {
                            position: step(r.position, dir(k), old.width as int, old.height as int),
                            path: rest,
                            ..r
                        },
                    ),
                    None => new.only_robot_becomes(old, id, r),
                }
            }
        } else if next == base {
            &&& new.same_world(old)
            &&& new.collected_crystals@ == old.collected_crystals@
            &&& new.collected_energy@ == old.collected_energy@
            &&& new.discovered_crystals@ == old.discovered_crystals@
            &&& new.discovered_energy@ == old.discovered_energy@
            &&& new.resource_quantities@ == old.resource_quantities@
            &&& new.deposited_crystals == old.deposited_crystals + r.carried_crystals
            &&& new.deposited_energy == old.deposited_energy + r.carried_energy
            &&& new.robot_becomes(
                old,
                id,
                RobotView {
                    position: next,
                    path: rest,
                    carried_crystals: 0,
                    carried_energy: 0,
                    state: RobotState::Exploring,
                    ..r
                },
            )
        } else {
            new.only_robot_becomes(old, id, RobotView { position: next, path: rest, ..r })
        }
    }
}

/// One tick of a collector returning to base.
#[verifier::rlimit(40)]
#[verifier::spinoff_prover]
pub fn tick_collector_returning_to_base(
    state: &mut SimulationState,
    robot_id: usize,
    occupied: &PositionSet,
)
    requires
        old(state).wf(),
        robot_id < old(state).robots@.len(),
        deposit_fits(old(state), robot_id as int),
    ensures
        final(state).wf(),
        returning_outcome(old(state), final(state), robot_id as int, occupied@.to_set()),
        final(state).resource_quantities@ == old(state).resource_quantities@,
        final(state).crystal_mass() == old(state).crystal_mass(),
        final(state).energy_mass() == old(state).energy_mass(),
        final(state).mass() == old(state).mass(),
{
    let ghost old_s = *state;
    let ghost id = robot_id as int;
    let ghost r = old_s.robots@[id]@;
    assert(robot_ok(r));
    let base_pos = state.base_pos;
    let next = state.robots[robot_id].path.pop_front();
    proof {
        assert(state.robots@ =~= old_s.robots@.update(id, state.robots@[id]));
        assert forall|i: int| 0 <= i < state.robots@[id]@.path.len() implies pos_ok(
            #[trigger] state.robots@[id]@.path[i],
        ) by {
            assert(state.robots@[id]@.path[i] == r.path[i + 1]);
        }
        lemma_robot_moved(&old_s, state, id);
    }
    match next {
        Some(next) => {
            if occupied.contains(&next) && (next.0 != base_pos.0 || next.1 != base_pos.1) {
                if !reroute_path(state, robot_id, base_pos) {
                    let ghost b1 = *state;
                    let moved = step_sideways(state, robot_id, occupied);
                    proof {
                        lemma_carried_update(b1.robots@, id, state.robots@[id], true);
                        lemma_carried_update(b1.robots@, id, state.robots@[id], false);
                    }
                    if !moved {
                        let ghost before = *state;
                        state.robots[robot_id].path.push_front(next);
                        proof {
                            assert(state.robots@ =~= before.robots@.update(id, state.robots@[id]));
                            assert(state.robots@[id]@.path =~= r.path);
                            lemma_robot_moved(&before, state, id);
                        }
                    }
                }
            } else {
                let ghost before = *state;
                assert(pos_ok(r.path[0]));
                state.robots[robot_id].position = next;
                proof {
                    assert(state.robots@ =~= before.robots@.update(id, state.robots@[id]));
                    lemma_robot_moved(&before, state, id);
                }
                if next.0 == base_pos.0 && next.1 == base_pos.1 {
                    let ghost before2 = *state;
                    proof {
                        lemma_carried_bound(state.robots@, id);
                    }
                    deposit_resources(state, robot_id);
                    proof {
                        lemma_carried_update(before2.robots@, id, state.robots@[id], true);
                        lemma_carried_update(before2.robots@, id, state.robots@[id], false);
                        assert forall|j: int| 0 <= j < state.robots@.len() implies robot_ok(
                            #[trigger] state.robots@[j]@,
                        ) by {
                            if j != id {
                                assert(state.robots@[j] == before2.robots@[j]);
                            } else {
                                assert(robot_ok(before2.robots@[id]@));
                                assert(state.robots@[id]@.path == before2.robots@[id]@.path);
                            }
                        }
                    }
                }
            }
        },
        None => {
            let ghost before = *state;
            state.robots[robot_id].state = RobotState::Exploring;
            proof {
                assert(state.robots@ =~= before.robots@.update(id, state.robots@[id]));
                lemma_robot_moved(&before, state, id);
            }
        },
    }
}

/// What a scout tick leaves: the robot wanders as `move_scout` does, and a
/// stocked crystal or energy cell it lands on, not yet collected, is
/// recorded as discovered.
pub open spec fn scouting_outcome(old: &SimulationState, new: &SimulationState, id: int, occupied: Set<Pos>) -> bool {
    let r = old.robots@[id]@;
    let nr = new.robots@[id]@;
    let pos = nr.position;
    let q = old.resource_quantities.spec_get(pos);
    let stocked = q is Some && q->0 > 0;
    let t = terrain_at(&old.map, pos.0 as int, pos.1 as int);
    &&& scout_moved(r, nr, &old.map, old.width as int, old.height as int, old.base_pos, occupied)
    &&& new.robot_becomes(old, id, nr)
    &&& new.same_world(old)
    &&& new.collected_crystals@ == old.collected_crystals@
    &&& new.collected_energy@ == old.collected_energy@
    &&& new.deposited_crystals == old.deposited_crystals
    &&& new.deposited_energy == old.deposited_energy
    &&& new.resource_quantities@ == old.resource_quantities@
    &&& new.discovered_crystals@ == if stocked && t == Terrain::Crystal && !old.collected_crystals@.contains(pos) {
        set_insert(old.discovered_crystals@, pos)
    } else {
        old.discovered_crystals@
    }
    &&& new.discovered_energy@ == if stocked && t == Terrain::Energy && !old.collected_energy@.contains(pos) {
        set_insert(old.discovered_energy@, pos)
    } else {
        old.discovered_energy@
    }
}

/// One tick of a scout: it wanders one cell and records any stocked resource
/// cell it lands on.
#[verifier::rlimit(40)]
pub fn tick_scout(state: &mut SimulationState, robot_id: usize, rng: &mut StdRng, occupied: &PositionSet)
    requires
        old(state).wf(),
        robot_id < old(state).robots@.len(),
    ensures
        final(state).wf(),
        scouting_outcome(old(state), final(state), robot_id as int, occupied@.to_set()),
        final(state).crystal_mass() == old(state).crystal_mass(),
        final(state).energy_mass() == old(state).energy_mass(),
        final(state).mass() == old(state).mass(),
{
    let ghost old_s = *state;
    let ghost id = robot_id as int;
    assert(robot_ok(old_s.robots@[id]@));
    let width = state.width;
    let height = state.height;
    let base_pos = state.base_pos;
    move_scout(&mut state.robots[robot_id], &state.map, width, height, base_pos, rng, occupied);
    proof {
        assert(state.robots@ =~= old_s.robots@.update(id, state.robots@[id]));
        lemma_robot_moved(&old_s, state, id);
    }
    let rx = state.robots[robot_id].position.0;
    let ry = state.robots[robot_id].position.1;
    proof {
        lemma_grid_cell_defined(&state.map, rx as int, ry as int);
    }
    match state.resource_quantities.get((rx, ry)) {
        Some(qty) => {
            if qty > 0 {
                if is_crystal(&state.map, rx, ry) && !state.collected_crystals.contains(&(rx, ry))
                    && !state.discovered_crystals.contains(&(rx, ry)) {
                    state.discovered_crystals.insert((rx, ry));
                }
                if is_energy(&state.map, rx, ry) && !state.collected_energy.contains(&(rx, ry))
                    && !state.discovered_energy.contains(&(rx, ry)) {
                    state.discovered_energy.insert((rx, ry));
                }
            }
        },
        None => {},
    }
    proof {
        assert forall|i: int| 0 <= i < state.discovered_crystals@.len() implies pos_ok(
            #[trigger] state.discovered_crystals@[i],
        ) by {
            if i < old_s.discovered_crystals@.len() {
                assert(state.discovered_crystals@[i] == old_s.discovered_crystals@[i]);
            }
        }
        assert forall|i: int| 0 <= i < state.discovered_energy@.len() implies pos_ok(
            #[trigger] state.discovered_energy@[i],
        ) by {
            if i < old_s.discovered_energy@.len() {
                assert(state.discovered_energy@[i] == old_s.discovered_energy@[i]);
            }
        }
    }
}

/// What an exploring collector's tick leaves: it wanders as `move_scout`
/// does (marked exploring), and starts collecting, with its path cleared, when
/// it lands on a stocked crystal or energy cell.
pub open spec fn exploring_outcome(old: &SimulationState, new: &SimulationState, id: int, occupied: Set<Pos>) -> bool {
    let r = old.robots@[id]@;
    exists|r1: RobotView|
        {
            let q = old.resource_quantities.spec_get(r1.position);
            let t = terrain_at(&old.map, r1.position.0 as int, r1.position.1 as int);
            &&& #[trigger] scout_moved(
                RobotView { state: RobotState::Exploring, ..r },
                r1,
                &old.map,
                old.width as int,
                old.height as int,
                old.base_pos,
                occupied,
            )
            &&& new.only_robot_becomes(
                old,
                id,
                if q is Some && q->0 > 0 && (t == Terrain::Crystal || t == Terrain::Energy) {
                    RobotView { state: RobotState::Collecting, path: Seq::empty(), ..r1 }
                } else {
                    r1
                },
            )
        }
}

/// One tick of a collector with nothing to do: it wanders like a scout and
/// starts collecting when it lands on a stocked resource cell.
#[verifier::rlimit(40)]
pub fn tick_collector_exploring(
    state: &mut SimulationState,
    robot_id: usize,
    rng: &mut StdRng,
    occupied: &PositionSet,
)
    requires
        old(state).wf(),
        robot_id < old(state).robots@.len(),
    ensures
        final(state).wf(),
        exploring_outcome(old(state), final(state), robot_id as int, occupied@.to_set()),
        final(state).crystal_mass() == old(state).crystal_mass(),
        final(state).energy_mass() == old(state).energy_mass(),
        final(state).mass() == old(state).mass(),
{
    let ghost old_s = *state;
    let ghost id = robot_id as int;
    assert(robot_ok(old_s.robots@[id]@));
    let width = state.width;
    let height = state.height;
    let base_pos = state.base_pos;
    state.robots[robot_id].state = RobotState::Exploring;
    let ghost r0 = state.robots@[id]@;
    move_scout(&mut state.robots[robot_id], &state.map, width, height, base_pos, rng, occupied);
    proof {
        assert(state.robots@ =~= old_s.robots@.update(id, state.robots@[id]));
        lemma_robot_moved(&old_s, state, id);
    }
    let ghost r1 = state.robots@[id]@;
    let pos = state.robots[robot_id].position;
    proof {
        lemma_grid_cell_defined(&state.map, pos.0 as int, pos.1 as int);
    }
    match state.resource_quantities.get(pos) {
        Some(qty) => {
            if qty > 0 && (is_crystal(&state.map, pos.0, pos.1) || is_energy(&state.map, pos.0, pos.1)) {
                let ghost before = *state;
                state.robots[robot_id].state = RobotState::Collecting;
                state.robots[robot_id].path.clear();
                proof {
                    assert(state.robots@ =~= before.robots@.update(id, state.robots@[id]));
                    lemma_robot_moved(&before, state, id);
                }
            }
        },
        None => {},
    }
    proof {
        assert(r0 == RobotView { state: RobotState::Exploring, ..old_s.robots@[id]@ });
        assert(scout_moved(
            RobotView { state: RobotState::Exploring, ..old_s.robots@[id]@ },
            r1,
            &old_s.map,
            old_s.width as int,
            old_s.height as int,
            old_s.base_pos,
            occupied@.to_set(),
        ));
    }
}

/// The cells where robots other than robot `id` stand.
pub open spec fn others_at(rs: Seq<Robot>, id: int) -> Set<Pos> {
    Set::new(|p: Pos| exists|j: int| 0 <= j < rs.len() && j != id && #[trigger] rs[j].position == p)
}

fn other_positions(robots: &Vec<Robot>, robot_id: usize) -> (occ: PositionSet)
    ensures
        occ.wf(),
        occ@.to_set() == others_at(robots@, robot_id as int),
{
    let mut occ = PositionSet::new();
    let n = robots.len();
    let mut i: usize = 0;
    while i < n
        invariant
            n == robots@.len(),
            i <= n,
            occ.wf(),
            forall|p: Pos|
                occ@.contains(p) <==> exists|j: int|
                    0 <= j < i && j != robot_id && #[trigger] robots@[j].position == p,
        decreases n - i,
    {
        if i != robot_id {
            occ.insert(robots[i].position);
        }
        proof {
            assert forall|p: Pos|
                occ@.contains(p) <==> exists|j: int|
                    0 <= j < i + 1 && j != robot_id && #[trigger] robots@[j].position == p by {
                if p == robots@[i as int].position && i != robot_id {
                    assert(robots@[i as int].position == p);
                }
            }
        }
        i += 1;
    }
    assert(occ@.to_set() =~= others_at(robots@, robot_id as int));
    occ
}

/// What one tick of robot `id` leaves, by its kind and task.
pub open spec fn tick_outcome(old: &SimulationState, new: &SimulationState, id: int) -> bool {
    let r = old.robots@[id]@;
    let occ = others_at(old.robots@, id);
    match r.robot_type {
        RobotType::Scout => scouting_outcome(old, new, id, occ),
        RobotType::Collector => match r.state {
            RobotState::MovingToResource => exists|r1: RobotView|
                #[trigger] moving_first_step(old, id, occ, r1) && new.only_robot_becomes(
                    old,
                    id,
                    settle_moving(old, r1),
                ),
            RobotState::ReturningToBase => returning_outcome(old, new, id, occ),
            RobotState::Collecting => {
                &&& new.same_world(old)
                &&& new.discovered_crystals@ == old.discovered_crystals@
                &&& new.discovered_energy@ == old.discovered_energy@
                &&& new.deposited_crystals == old.deposited_crystals
                &&& new.deposited_energy == old.deposited_energy
                &&& collecting_outcome(old, new, id)
            },
            RobotState::Exploring => exploring_outcome(old, new, id, occ),
        },
    }
}

/// Runs one tick of robot `robot_id`, the other robots' cells counting as
/// occupied. The counters the tick adds to must have room (`counters_fit`).
pub fn tick_robot(state: &mut SimulationState, robot_id: usize, rng: &mut StdRng)
    requires
        old(state).wf(),
        robot_id < old(state).robots@.len(),
        old(state).counters_fit(robot_id as int),
    ensures
        final(state).counted() <= old(state).counted() + 1,
        final(state).wf(),
        tick_outcome(old(state), final(state), robot_id as int),
        final(state).crystal_mass() == old(state).crystal_mass(),
        final(state).energy_mass() == old(state).energy_mass(),
        final(state).mass() <= old(state).mass(),
{
    let robot_type = state.robots[robot_id].robot_type;
    let occupied_positions = other_positions(&state.robots, robot_id);
    match robot_type {
        RobotType::Scout => tick_scout(state, robot_id, rng, &occupied_positions),
        RobotType::Collector => {
            let current_state = state.robots[robot_id].state;
            match current_state {
                RobotState::MovingToResource => {
                    tick_collector_moving_to_resource(state, robot_id, &occupied_positions)
                },
                RobotState::ReturningToBase => {
                    tick_collector_returning_to_base(state, robot_id, &occupied_positions)
                },
                RobotState::Collecting => tick_collector_collecting(state, robot_id),
                _ => tick_collector_exploring(state, robot_id, rng, &occupied_positions),
            }
        },
    }
}

/// Whether every counter robot `robot_id`'s next tick adds to stays within a
/// `u32`, as `tick_robot` requires.
pub fn counters_fit(state: &SimulationState, robot_id: usize) -> (b: bool)
    requires
        state.wf(),
        robot_id < state.robots@.len(),
    ensures
        b == state.counters_fit(robot_id as int),
{
    let r = &state.robots[robot_id];
    match r.robot_type {
        RobotType::Scout => true,
        RobotType::Collector => match r.state {
            RobotState::Collecting => {
                let pos = r.position;
                proof {
                    lemma_grid_cell_defined(&state.map, pos.0 as int, pos.1 as int);
                }
                let gain: u64 = match state.resource_quantities.get(pos) {
                    Some(q) => {
                        if q > 0 && (is_crystal(&state.map, pos.0, pos.1) || is_energy(
                            &state.map,
                            pos.0,
                            pos.1,
                        )) {
                            1
                        } else {
                            0
                        }
                    },
                    None => 0,
                };
                r.carried_crystals as u64 + r.carried_energy as u64 + gain <= 0xffff_ffffu64
            },
            RobotState::ReturningToBase => {
                if r.path.len() > 0 {
                    let next = r.path[0];
                    if next.0 == state.base_pos.0 && next.1 == state.base_pos.1 {
                        state.deposited_crystals as u64 + r.carried_crystals as u64 <= 0xffff_ffffu64
                            && state.deposited_energy as u64 + r.carried_energy as u64 <= 0xffff_ffffu64
                    } else {
                        true
                    }
                } else {
                    true
                }
            },
            _ => true,
        },
    }
}

/// What `assign_collectors` makes of state `s`.
pub open spec fn assignment_outcome(s: &SimulationState, new: &SimulationState) -> bool {
    &&& new.same_world(s)
    &&& new.same_stocks(s)
    &&& new.robots@.len() == s.robots@.len()
    &&& forall|k: int|
        0 <= k < s.robots@.len() ==> assigned(s, s.robots@[k]@, #[trigger] new.robots@[k]@, targets_after(s, k))
}

/// `steps` are the states of a round of `n` robots after the first `k`
/// ticks: each robot in turn takes its tick.
pub open spec fn round_of_ticks(steps: Seq<SimulationState>, k: int, n: int) -> bool {
    &&& steps.len() == k + 1
    &&& forall|i: int| 0 <= i <= k ==> (#[trigger] steps[i]).robots@.len() == n && steps[i].wf()
    &&& forall|i: int| #![trigger steps[i]] 0 <= i < k ==> tick_outcome(&steps[i], &steps[i + 1], i)
}

impl SimulationState {
    /// One round: every robot takes its tick in order, then idle collectors
    /// are given targets. Robots only change in their own tick, so what each
    /// adds to a counter is known from the state the round starts in
    /// (`round_fits`).
    pub fn tick(&mut self, rng: &mut StdRng)
        requires
            old(self).wf(),
            old(self).round_fits(),
        ensures
            final(self).wf(),
            final(self).same_world(old(self)),
            final(self).robots@.len() == old(self).robots@.len(),
            final(self).crystal_mass() == old(self).crystal_mass(),
            final(self).energy_mass() == old(self).energy_mass(),
            final(self).mass() <= old(self).mass(),
            exists|steps: Seq<SimulationState>|
                #[trigger] round_of_ticks(steps, old(self).robots@.len() as int, old(self).robots@.len() as int) && steps[0] == *old(self)
                    && assignment_outcome(&steps[old(self).robots@.len() as int], final(self)),
    {
        let ghost start = *self;
        let ghost mut steps: Seq<SimulationState> = seq![*self];
        let n = self.robots.len();
        assert(start.robots@.subrange(0, n as int) =~= start.robots@);
        let mut robot_id: usize = 0;
        while robot_id < n
            invariant
                robot_id <= n,
                n == start.robots@.len(),
                self.wf(),
                self.robots@.len() == n,
                self.same_world(&start),
                self.crystal_mass() == start.crystal_mass(),
                self.energy_mass() == start.energy_mass(),
                self.mass() <= start.mass(),
                round_of_ticks(steps, robot_id as int, n as int),
                steps[0] == start,
                steps[robot_id as int] == *self,
                start.round_fits(),
                forall|j: int| robot_id <= j < n ==> #[trigger] self.robots@[j]@ == start.robots@[j]@,
                self.deposited_crystals + deposit_load(start.robots@.subrange(robot_id as int, n as int), start.base_pos, true)
                    <= u32::MAX,
                self.deposited_energy + deposit_load(start.robots@.subrange(robot_id as int, n as int), start.base_pos, false)
                    <= u32::MAX,
                forall|p: Pos| #[trigger] stocked_at(self, p) ==> stocked_at(&start, p),
            decreases n - robot_id,
        {
            let ghost before = *self;
            let ghost k = robot_id as int;
            proof {
                let sub = start.robots@.subrange(k, n as int);
                assert(sub[0] == start.robots@[k]);
                assert(sub.drop_first() =~= start.robots@.subrange(k + 1, n as int));
                assert(deposit_load(sub, start.base_pos, true) == deposit_share(start.robots@[k]@, start.base_pos, true)
                    + deposit_load(start.robots@.subrange(k + 1, n as int), start.base_pos, true));
                assert(deposit_load(sub, start.base_pos, false) == deposit_share(start.robots@[k]@, start.base_pos, false)
                    + deposit_load(start.robots@.subrange(k + 1, n as int), start.base_pos, false));
                let r = self.robots@[k]@;
                assert(r == start.robots@[k]@);
                if r.robot_type == RobotType::Collector && r.state == RobotState::Collecting {
                    assert(collect_fits(&start, k));
                    if stocked_at(self, r.position) {
                        assert(stocked_at(&start, r.position));
                    }
                    assert(collect_fits(self, k));
                }
                if r.robot_type == RobotType::Collector && r.state == RobotState::ReturningToBase {
                    assert(deposit_fits(self, k));
                }
                assert(self.counters_fit(k));
            }
            tick_robot(self, robot_id, rng);
            proof {
                lemma_tick_effects(&before, self, robot_id as int);
                assert forall|j: int| robot_id + 1 <= j < n implies #[trigger] self.robots@[j]@ == start.robots@[j]@ by {
                    assert(before.robots@[j]@ == start.robots@[j]@);
                }
                assert forall|p: Pos| #[trigger] stocked_at(self, p) implies stocked_at(&start, p) by {
                    assert(stocked_at(&before, p));
                }
                let s2 = steps.push(*self);
                assert forall|i: int| #![trigger s2[i]] 0 <= i < robot_id + 1 implies tick_outcome(
                    &s2[i],
                    &s2[i + 1],
                    i,
                ) by {
                    assert(s2[i] == steps[i]);
                    if i < robot_id {
                        assert(s2[i + 1] == steps[i + 1]);
                    }
                }
                assert forall|i: int| 0 <= i <= robot_id + 1 implies (#[trigger] s2[i]).robots@.len() == n
                    && s2[i].wf() by {
                    if i <= robot_id {
                        assert(s2[i] == steps[i]);
                    }
                }
                steps = s2;
            }
            robot_id += 1;
        }
        let ghost last = *self;
        assign_collectors(self);
        assert(assignment_outcome(&last, self));
    }
}

/// A tick keeps the world, the number of robots and every other robot; it
/// adds to the deposits only what a collector about to enter the base
/// carries, and stocks no cell that was empty.
pub proof fn lemma_tick_effects(old: &SimulationState, new: &SimulationState, id: int)
    requires
        0 <= id < old.robots@.len(),
        tick_outcome(old, new, id),
    ensures
        new.robots@.len() == old.robots@.len(),
        new.same_world(old),
        forall|j: int| 0 <= j < old.robots@.len() && j != id ==> #[trigger] new.robots@[j]@ == old.robots@[j]@,
        new.deposited_crystals == old.deposited_crystals + deposit_share(old.robots@[id]@, old.base_pos, true),
        new.deposited_energy == old.deposited_energy + deposit_share(old.robots@[id]@, old.base_pos, false),
        forall|p: Pos| #[trigger] stocked_at(new, p) ==> stocked_at(old, p),
{
    let r = old.robots@[id]@;
    let occ = others_at(old.robots@, id);
    match r.robot_type {
        RobotType::Scout => {},
        RobotType::Collector => match r.state {
            RobotState::MovingToResource => {
                let r1 = choose|r1: RobotView|
                    #[trigger] moving_first_step(old, id, occ, r1) && new.only_robot_becomes(
                        old,
                        id,
                        settle_moving(old, r1),
                    );
            },
            RobotState::ReturningToBase => {
                if r.path.len() > 0 {
                    let next = r.path[0];
                    if occ.contains(next) && next != old.base_pos {
                        if r.position != old.base_pos && reachable(
                            &old.map,
                            old.width as int,
                            old.height as int,
                            old.base_pos,
                            r.position,
                            old.base_pos,
                        ) {
                            let p = choose|p: Seq<Pos>|
                                #[trigger] is_shortest_route(
                                    &old.map,
                                    old.width as int,
                                    old.height as int,
                                    old.base_pos,
                                    r.position,
                                    old.base_pos,
                                    p,
                                ) && p == bfs_route(&old.map, old.width as int, old.height as int, old.base_pos, r.position, old.base_pos) && new.only_robot_becomes(
                                    old,
                                    id,
                                    RobotView { position: p[0], path: p.drop_first(), ..r },
                                );
                        }
                    }
                }
            },
            RobotState::Collecting => {},
            RobotState::Exploring => {
                let r1 = choose|r1: RobotView|
                    {
                        let q = old.resource_quantities.spec_get(r1.position);
                        let t = terrain_at(&old.map, r1.position.0 as int, r1.position.1 as int);
                        &&& #[trigger] crate::robot::scout_moved(
                            RobotView { state: RobotState::Exploring, ..r },
                            r1,
                            &old.map,
                            old.width as int,
                            old.height as int,
                            old.base_pos,
                            occ,
                        )
                        &&& new.only_robot_becomes(
                            old,
                            id,
                            if q is Some && q->0 > 0 && (t == Terrain::Crystal || t == Terrain::Energy) {
                                RobotView { state: RobotState::Collecting, path: Seq::empty(), ..r1 }
                            } else {
                                r1
                            },
                        )
                    };
            },
        },
    }
}

} // verus!
