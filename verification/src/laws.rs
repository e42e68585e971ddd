//! Properties that hold across the operations of the simulation.

use vstd::prelude::*;

use crate::assignment::{
    assigned, available, first_nearest, gets_target, initial_targets, lemma_first_nearest, targeted_by,
    targets_after,
};
use crate::pathfinding::{is_shortest_route, is_walk, lemma_walk_interior, passable, reachable};
use crate::robot::{
    dir_allowed, drop_dir, lemma_drop_dir_subset, scout_moved, takes_first_valid, unit_dirs, RobotState, RobotType,
    RobotView,
};
use crate::simulation::{
    assignment_outcome, collecting_outcome, first_sidestep, moving_first_step, others_at,
    returning_outcome, round_of_ticks, scouting_outcome, set_insert, settle_moving, sidestep_allowed,
    tick_outcome, SimulationState, COLLECTOR_CAPACITY,
};
use crate::world::size_ok;
use crate::world::{dir, step, terrain_at, Pos, Terrain};

verus! {

/// A wandering robot either stays where it is or moves one step, in its
/// preferred direction or in one of the four unit directions, onto a cell it
/// is allowed to enter; nothing else about it changes.
pub proof fn lemma_scout_moves_one_step(
    old: RobotView,
    new: RobotView,
    map: &Vec<Vec<Terrain>>,
    width: int,
    height: int,
    base_pos: Pos,
    occupied: Set<Pos>,
)
    requires
        scout_moved(old, new, map, width, height, base_pos, occupied),
    ensures
        new.path == old.path,
        new.state == old.state,
        new.robot_type == old.robot_type,
        new.carried_crystals == old.carried_crystals,
        new.carried_energy == old.carried_energy,
        new.position == old.position || {
            &&& dir_allowed(map, width, height, base_pos, occupied, old.position, new.preferred_dir)
            &&& new.position == step(old.position, new.preferred_dir, width, height)
            &&& (new.preferred_dir == old.preferred_dir || unit_dirs().contains(new.preferred_dir))
        },
{
    let (pref, others) = choose|pref: (i16, i16), others: Seq<(i16, i16)>|
        {
            &&& (pref == old.preferred_dir || unit_dirs().contains(pref))
            &&& others.to_multiset() == drop_dir(unit_dirs(), pref).to_multiset()
            &&& #[trigger] takes_first_valid(
                RobotView { preferred_dir: pref, ..old },
                new,
                seq![pref] + others,
                map,
                width,
                height,
                base_pos,
                occupied,
            )
        };
    let cands = seq![pref] + others;
    let o2 = RobotView { preferred_dir: pref, ..old };
    if exists|c: int|
        0 <= c < cands.len() && dir_allowed(map, width, height, base_pos, occupied, o2.position, #[trigger] cands[c])
            && (forall|e: int|
            0 <= e < c ==> !dir_allowed(map, width, height, base_pos, occupied, o2.position, #[trigger] cands[e]))
            && new == (RobotView {
            position: step(o2.position, cands[c], width, height),
            preferred_dir: cands[c],
            ..o2
        }) {
        let c = choose|c: int|
            0 <= c < cands.len() && dir_allowed(map, width, height, base_pos, occupied, o2.position, #[trigger] cands[c])
                && (forall|e: int|
                0 <= e < c ==> !dir_allowed(map, width, height, base_pos, occupied, o2.position, #[trigger] cands[e]))
                && new == (RobotView {
                position: step(o2.position, cands[c], width, height),
                preferred_dir: cands[c],
                ..o2
            });
        if c > 0 {
            let d = cands[c];
            assert(others[c - 1] == d);
            others.to_multiset_ensures();
            drop_dir(unit_dirs(), pref).to_multiset_ensures();
            assert(others.contains(d));
            assert(others.to_multiset().count(d) > 0);
            assert(drop_dir(unit_dirs(), pref).contains(d));
            lemma_drop_dir_subset(unit_dirs(), pref, d);
        }
    }
}

/// Collected cells hold nothing: each has a recorded quantity of zero.
pub open spec fn collected_are_empty(s: &SimulationState) -> bool {
    &&& forall|p: Pos| #[trigger] s.collected_crystals@.contains(p) ==> s.resource_quantities.spec_get(p) == Some(0u32)
    &&& forall|p: Pos| #[trigger] s.collected_energy@.contains(p) ==> s.resource_quantities.spec_get(p) == Some(0u32)
}

/// Discovered cells are resource cells of their kind.
pub open spec fn discoveries_match_terrain(s: &SimulationState) -> bool {
    &&& forall|p: Pos|
        #[trigger] s.discovered_crystals@.contains(p) ==> terrain_at(&s.map, p.0 as int, p.1 as int)
            == Terrain::Crystal
    &&& forall|p: Pos|
        #[trigger] s.discovered_energy@.contains(p) ==> terrain_at(&s.map, p.0 as int, p.1 as int)
            == Terrain::Energy
}

/// No cell is discovered both as a crystal and as an energy cell.
pub open spec fn discoveries_disjoint(s: &SimulationState) -> bool {
    forall|p: Pos| #[trigger] s.discovered_crystals@.contains(p) ==> !s.discovered_energy@.contains(p)
}

/// A robot's tick keeps the map, the number of robots and every robot's
/// kind; apart from collecting it leaves the collected sets and the
/// quantities in the ground as they were, and only a scout adds discoveries.
pub proof fn lemma_tick_stocks(old: &SimulationState, new: &SimulationState, id: int)
    requires
        0 <= id < old.robots@.len(),
        tick_outcome(old, new, id),
    ensures
        new.map == old.map,
        new.robots@.len() == old.robots@.len(),
        forall|j: int| 0 <= j < old.robots@.len() ==> #[trigger] new.robots@[j].robot_type == old.robots@[j].robot_type,
        !(old.robots@[id].robot_type == RobotType::Collector && old.robots@[id].state == RobotState::Collecting)
            ==> new.collected_crystals@ == old.collected_crystals@ && new.collected_energy@
            == old.collected_energy@ && new.resource_quantities@ == old.resource_quantities@,
        old.robots@[id].robot_type == RobotType::Collector ==> new.discovered_crystals@
            == old.discovered_crystals@ && new.discovered_energy@ == old.discovered_energy@,
{
    let r = old.robots@[id]@;
    let occ = others_at(old.robots@, id);
    match r.robot_type {
        RobotType::Scout => {
            lemma_scout_moves_one_step(
                r,
                new.robots@[id]@,
                &old.map,
                old.width as int,
                old.height as int,
                old.base_pos,
                occ,
            );
        },
        RobotType::Collector => match r.state {
            RobotState::MovingToResource => {
                let r1 = choose|r1: RobotView|
                    #[trigger] moving_first_step(old, id, occ, r1) && new.only_robot_becomes(
                        old,
                        id,
                        settle_moving(old, r1),
                    );
            },
            RobotState::ReturningToBase => {
                if r.path.len() > 0 {
                    let next = r.path[0];
                    if occ.contains(next) && next != old.base_pos {
                        if r.position != old.base_pos && reachable(
                            &old.map,
                            old.width as int,
                            old.height as int,
                            old.base_pos,
                            r.position,
                            old.base_pos,
                        ) {
                            let p = choose|p: Seq<Pos>|
                                #[trigger] is_shortest_route(
                                    &old.map,
                                    old.width as int,
                                    old.height as int,
                                    old.base_pos,
                                    r.position,
                                    old.base_pos,
                                    p,
                                ) && new.only_robot_becomes(
                                    old,
                                    id,
                                    RobotView { position: p[0], path: p.drop_first(), ..r },
                                );
                        }
                    }
                }
            },
            RobotState::Collecting => {},
            RobotState::Exploring => {
                let r1 = choose|r1: RobotView|
                    {
                        let q = old.resource_quantities.spec_get(r1.position);
                        let t = terrain_at(&old.map, r1.position.0 as int, r1.position.1 as int);
                        &&& #[trigger] scout_moved(
                            RobotView { state: RobotState::Exploring, ..r },
                            r1,
                            &old.map,
                            old.width as int,
                            old.height as int,
                            old.base_pos,
                            occ,
                        )
                        &&& new.only_robot_becomes(
                            old,
                            id,
                            if q is Some && q->0 > 0 && (t == Terrain::Crystal || t == Terrain::Energy) {
                                RobotView { state: RobotState::Collecting, path: Seq::empty(), ..r1 }
                            } else {
                                r1
                            },
                        )
                    };
                lemma_scout_moves_one_step(
                    RobotView { state: RobotState::Exploring, ..r },
                    r1,
                    &old.map,
                    old.width as int,
                    old.height as int,
                    old.base_pos,
                    occ,
                );
            },
        },
    }
    assert forall|j: int| 0 <= j < old.robots@.len() implies #[trigger] new.robots@[j].robot_type
        == old.robots@[j].robot_type by {
        if j != id {
            assert(new.robots@[j]@ == old.robots@[j]@);
        } else {
            assert(new.robots@[j]@.robot_type == r.robot_type);
        }
    }
}

proof fn lemma_set_insert_contains(s: Seq<Pos>, p: Pos, q: Pos)
    ensures
        set_insert(s, p).contains(q) <==> s.contains(q) || q == p,
{
    if !s.contains(p) {
        if s.contains(q) {
            let j = choose|j: int| 0 <= j < s.len() && s[j] == q;
            assert(s.push(p)[j] == q);
        }
        if q == p {
            assert(s.push(p)[s.len() as int] == q);
        }
        if s.push(p).contains(q) {
            let j = choose|j: int| 0 <= j < s.push(p).len() && s.push(p)[j] == q;
            if j < s.len() {
                assert(s[j] == q);
            }
        }
    }
}

/// Once collected, a cell stays empty: every robot tick keeps collected cells
/// at a quantity of zero.
pub proof fn lemma_tick_keeps_collected_empty(old: &SimulationState, new: &SimulationState, id: int)
    requires
        0 <= id < old.robots@.len(),
        tick_outcome(old, new, id),
        collected_are_empty(old),
    ensures
        collected_are_empty(new),
{
    lemma_tick_stocks(old, new, id);
    let r = old.robots@[id]@;
    if r.robot_type == RobotType::Collector && r.state == RobotState::Collecting {
        assert(collecting_outcome(old, new, id));
        let pos = r.position;
        assert forall|p: Pos| #[trigger] new.collected_crystals@.contains(p) implies new.resource_quantities.spec_get(p)
            == Some(0u32) by {
            lemma_set_insert_contains(old.collected_crystals@, pos, p);
            assert(new.resource_quantities.spec_get(p) == if p == pos && (old.resource_quantities.spec_get(pos) is Some
                && old.resource_quantities.spec_get(pos)->0 > 0) {
                Some((old.resource_quantities.spec_get(pos)->0 - 1) as u32)
            } else {
                old.resource_quantities.spec_get(p)
            });
        }
        assert forall|p: Pos| #[trigger] new.collected_energy@.contains(p) implies new.resource_quantities.spec_get(p)
            == Some(0u32) by {
            lemma_set_insert_contains(old.collected_energy@, pos, p);
            assert(new.resource_quantities.spec_get(p) == if p == pos && (old.resource_quantities.spec_get(pos) is Some
                && old.resource_quantities.spec_get(pos)->0 > 0) {
                Some((old.resource_quantities.spec_get(pos)->0 - 1) as u32)
            } else {
                old.resource_quantities.spec_get(p)
            });
        }
    }
}

/// Discoveries always name resource cells of their kind: every robot tick
/// keeps it so.
pub proof fn lemma_tick_keeps_discoveries(old: &SimulationState, new: &SimulationState, id: int)
    requires
        0 <= id < old.robots@.len(),
        tick_outcome(old, new, id),
        discoveries_match_terrain(old),
    ensures
        discoveries_match_terrain(new),
{
    lemma_tick_stocks(old, new, id);
    let r = old.robots@[id]@;
    if r.robot_type == RobotType::Scout {
        let pos = new.robots@[id]@.position;
        assert forall|p: Pos| #[trigger] new.discovered_crystals@.contains(p) implies terrain_at(
            &new.map,
            p.0 as int,
            p.1 as int,
        ) == Terrain::Crystal by {
            lemma_set_insert_contains(old.discovered_crystals@, pos, p);
        }
        assert forall|p: Pos| #[trigger] new.discovered_energy@.contains(p) implies terrain_at(
            &new.map,
            p.0 as int,
            p.1 as int,
        ) == Terrain::Energy by {
            lemma_set_insert_contains(old.discovered_energy@, pos, p);
        }
    }
}

/// Assignment keeps both properties: it changes no set and no quantity.
pub proof fn lemma_assignment_keeps_stocks(old: &SimulationState, new: &SimulationState)
    requires
        assignment_outcome(old, new),
    ensures
        collected_are_empty(old) ==> collected_are_empty(new),
        discoveries_match_terrain(old) ==> discoveries_match_terrain(new),
{
    assert forall|p: Pos| new.resource_quantities.spec_get(p) == old.resource_quantities.spec_get(p) by {}
}

/// A whole round (every robot's tick, then assignment) never refills a
/// collected cell, and discoveries keep naming resource cells of their kind.
pub proof fn lemma_round_keeps_stocks(steps: Seq<SimulationState>, n: int, new: &SimulationState)
    requires
        n >= 0,
        round_of_ticks(steps, n, n),
        assignment_outcome(&steps[n], new),
    ensures
        collected_are_empty(&steps[0]) ==> collected_are_empty(new),
        discoveries_match_terrain(&steps[0]) ==> discoveries_match_terrain(new),
{
    lemma_steps_keep_stocks(steps, n, n);
    lemma_assignment_keeps_stocks(&steps[n], new);
}

proof fn lemma_steps_keep_stocks(steps: Seq<SimulationState>, n: int, k: int)
    requires
        0 <= k <= n,
        round_of_ticks(steps, n, n),
    ensures
        collected_are_empty(&steps[0]) ==> collected_are_empty(&steps[k]),
        discoveries_match_terrain(&steps[0]) ==> discoveries_match_terrain(&steps[k]),
    decreases k,
{
    if k > 0 {
        lemma_steps_keep_stocks(steps, n, k - 1);
        assert(tick_outcome(&steps[k - 1], &steps[k], k - 1));
        assert(k - 1 < steps[k - 1].robots@.len());
        if collected_are_empty(&steps[k - 1]) {
            lemma_tick_keeps_collected_empty(&steps[k - 1], &steps[k], k - 1);
        }
        if discoveries_match_terrain(&steps[k - 1]) {
            lemma_tick_keeps_discoveries(&steps[k - 1], &steps[k], k - 1);
        }
    }
}

/// A cell robots may stand on: inside the outer rim and not an obstacle.
pub open spec fn in_play(s: &SimulationState, p: Pos) -> bool {
    &&& 1 <= p.0 <= s.width - 2
    &&& 1 <= p.1 <= s.height - 2
    &&& terrain_at(&s.map, p.0 as int, p.1 as int) != Terrain::Obstacle
}

/// Every robot stands on, and plans to walk through, cells in play.
pub open spec fn robots_placed(s: &SimulationState) -> bool {
    forall|i: int|
        0 <= i < s.robots@.len() ==> {
            let r = (#[trigger] s.robots@[i])@;
            &&& in_play(s, r.position)
            &&& forall|j: int| 0 <= j < r.path.len() ==> in_play(s, #[trigger] r.path[j])
        }
}

proof fn lemma_route_in_play(s: &SimulationState, from: Pos, to: Pos, p: Seq<Pos>)
    requires
        size_ok(s.width as int),
        size_ok(s.height as int),
        is_walk(&s.map, s.width as int, s.height as int, s.base_pos, from, to, p),
    ensures
        forall|j: int| 0 <= j < p.len() ==> in_play(s, #[trigger] p[j]),
{
    lemma_walk_interior(&s.map, s.width as int, s.height as int, s.base_pos, from, to, p);
    assert forall|j: int| 0 <= j < p.len() implies in_play(s, #[trigger] p[j]) by {
        assert(passable(&s.map, p[j], to, s.base_pos));
    }
}

proof fn lemma_step_interior(p: Pos, d: (i16, i16), width: int, height: int)
    requires
        size_ok(width),
        size_ok(height),
    ensures
        1 <= step(p, d, width, height).0 <= width - 2,
        1 <= step(p, d, width, height).1 <= height - 2,
{
}

/// The robot `nr` replacing robot `id` is placed, so the state stays placed.
proof fn lemma_placed_update(old: &SimulationState, new: &SimulationState, id: int, nr: RobotView)
    requires
        robots_placed(old),
        0 <= id < old.robots@.len(),
        new.same_world(old),
        new.robot_becomes(old, id, nr),
        in_play(old, nr.position),
        forall|j: int| 0 <= j < nr.path.len() ==> in_play(old, #[trigger] nr.path[j]),
    ensures
        robots_placed(new),
{
    assert forall|i: int| 0 <= i < new.robots@.len() implies {
        let r = (#[trigger] new.robots@[i])@;
        &&& in_play(new, r.position)
        &&& forall|j: int| 0 <= j < r.path.len() ==> in_play(new, #[trigger] r.path[j])
    } by {
        if i != id {
            assert(new.robots@[i]@ == old.robots@[i]@);
            assert(old.robots@[i]@ == (old.robots@[i])@);
        }
    }
}

/// Robots never leave the playable area nor step onto an obstacle: a robot's
/// tick keeps every robot, and every planned path, on cells in play.
#[verifier::rlimit(60)]
#[verifier::spinoff_prover]
pub proof fn lemma_tick_keeps_robots_placed(old: &SimulationState, new: &SimulationState, id: int)
    requires
        old.wf(),
        0 <= id < old.robots@.len(),
        tick_outcome(old, new, id),
        robots_placed(old),
    ensures
        robots_placed(new),
{
    let r = old.robots@[id]@;
    let w = old.width as int;
    let h = old.height as int;
    let occ = others_at(old.robots@, id);
    assert(in_play(old, r.position) && forall|j: int| 0 <= j < r.path.len() ==> in_play(old, #[trigger] r.path[j]));
    match r.robot_type {
        RobotType::Scout => {
            let nr = new.robots@[id]@;
            lemma_scout_moves_one_step(r, nr, &old.map, w, h, old.base_pos, occ);
            lemma_step_interior(r.position, nr.preferred_dir, w, h);
            lemma_placed_update(old, new, id, nr);
        },
        RobotType::Collector => match r.state {
            RobotState::MovingToResource => {
                let r1 = choose|r1: RobotView|
                    #[trigger] moving_first_step(old, id, occ, r1) && new.only_robot_becomes(
                        old,
                        id,
                        settle_moving(old, r1),
                    );
                if r.path.len() > 0 {
                    let next = r.path[0];
                    if occ.contains(next) {
                        let target = r.path.last();
                        if r.position != target && reachable(&old.map, w, h, old.base_pos, r.position, target) {
                            let p = choose|p: Seq<Pos>|
                                #[trigger] is_shortest_route(&old.map, w, h, old.base_pos, r.position, target, p)
                                    && r1 == (RobotView { position: p[0], path: p.drop_first(), ..r });
                            lemma_route_in_play(old, r.position, target, p);
                            assert(forall|j: int| 0 <= j < r1.path.len() ==> #[trigger] r1.path[j] == p[j + 1]);
                        }
                    } else {
                        assert(forall|j: int| 0 <= j < r1.path.len() ==> #[trigger] r1.path[j] == r.path[j + 1]);
                    }
                }
                lemma_placed_update(old, new, id, settle_moving(old, r1));
            },
            RobotState::ReturningToBase => {
                assert(returning_outcome(old, new, id, occ));
                if r.path.len() > 0 {
                    let next = r.path[0];
                    let rest = r.path.drop_first();
                    assert(forall|j: int| 0 <= j < rest.len() ==> #[trigger] rest[j] == r.path[j + 1]);
                    if occ.contains(next) && next != old.base_pos {
                        if r.position != old.base_pos && reachable(
                            &old.map,
                            w,
                            h,
                            old.base_pos,
                            r.position,
                            old.base_pos,
                        ) {
                            let p = choose|p: Seq<Pos>|
                                #[trigger] is_shortest_route(
                                    &old.map,
                                    w,
                                    h,
                                    old.base_pos,
                                    r.position,
                                    old.base_pos,
                                    p,
                                ) && new.only_robot_becomes(
                                    old,
                                    id,
                                    RobotView { position: p[0], path: p.drop_first(), ..r },
                                );
                            lemma_route_in_play(old, r.position, old.base_pos, p);
                            let nr = RobotView { position: p[0], path: p.drop_first(), ..r };
                            assert(forall|j: int| 0 <= j < nr.path.len() ==> #[trigger] nr.path[j] == p[j + 1]);
                            lemma_placed_update(old, new, id, nr);
                        } else {
                            match first_sidestep(old, occ, r.position) {
                                Some(k) => {
                                    let nr = RobotView {
                                        position: step(r.position, dir(k), w, h),
                                        path: rest,
                                        ..r
                                    };
                                    assert(sidestep_allowed(old, occ, r.position, dir(k)));
                                    lemma_step_interior(r.position, dir(k), w, h);
                                    lemma_placed_update(old, new, id, nr);
                                },
                                None => {
                                    lemma_placed_update(old, new, id, r);
                                },
                            }
                        }
                    } else if next == old.base_pos {
                        let nr = RobotView {
                            position: next,
                            path: rest,
                            carried_crystals: 0,
                            carried_energy: 0,
                            state: RobotState::Exploring,
                            ..r
                        };
                        lemma_placed_update(old, new, id, nr);
                    } else {
                        lemma_placed_update(old, new, id, RobotView { position: next, path: rest, ..r });
                    }
                } else {
                    lemma_placed_update(old, new, id, RobotView { state: RobotState::Exploring, ..r });
                }
            },
            RobotState::Collecting => {
                assert(collecting_outcome(old, new, id));
                let nr = new.robots@[id]@;
                if nr.path.len() > 0 && nr.path != r.path {
                    lemma_route_in_play(old, r.position, old.base_pos, nr.path);
                }
                lemma_placed_update(old, new, id, nr);
            },
            RobotState::Exploring => {
                let r1 = choose|r1: RobotView|
                    {
                        let q = old.resource_quantities.spec_get(r1.position);
                        let t = terrain_at(&old.map, r1.position.0 as int, r1.position.1 as int);
                        &&& #[trigger] scout_moved(
                            RobotView { state: RobotState::Exploring, ..r },
                            r1,
                            &old.map,
                            w,
                            h,
                            old.base_pos,
                            occ,
                        )
                        &&& new.only_robot_becomes(
                            old,
                            id,
                            if q is Some && q->0 > 0 && (t == Terrain::Crystal || t == Terrain::Energy) {
                                RobotView { state: RobotState::Collecting, path: Seq::empty(), ..r1 }
                            } else {
                                r1
                            },
                        )
                    };
                lemma_scout_moves_one_step(
                    RobotView { state: RobotState::Exploring, ..r },
                    r1,
                    &old.map,
                    w,
                    h,
                    old.base_pos,
                    occ,
                );
                lemma_step_interior(r.position, r1.preferred_dir, w, h);
                let nr = new.robots@[id]@;
                lemma_placed_update(old, new, id, nr);
            },
        },
    }
}

/// A whole round keeps every robot, and every planned path, on cells in play.
pub proof fn lemma_round_keeps_robots_placed(steps: Seq<SimulationState>, n: int, new: &SimulationState)
    requires
        n >= 0,
        round_of_ticks(steps, n, n),
        assignment_outcome(&steps[n], new),
        robots_placed(&steps[0]),
    ensures
        robots_placed(new),
{
    lemma_steps_keep_placed(steps, n, n);
    lemma_assignment_keeps_robots_placed(&steps[n], new);
}

proof fn lemma_steps_keep_placed(steps: Seq<SimulationState>, n: int, k: int)
    requires
        0 <= k <= n,
        round_of_ticks(steps, n, n),
        robots_placed(&steps[0]),
    ensures
        robots_placed(&steps[k]),
    decreases k,
{
    if k > 0 {
        lemma_steps_keep_placed(steps, n, k - 1);
        assert(tick_outcome(&steps[k - 1], &steps[k], k - 1));
        assert(steps[k - 1].wf() && steps[k - 1].robots@.len() == n);
        lemma_tick_keeps_robots_placed(&steps[k - 1], &steps[k], k - 1);
    }
}

/// Assignment keeps every robot on cells in play.
pub proof fn lemma_assignment_keeps_robots_placed(old: &SimulationState, new: &SimulationState)
    requires
        old.wf(),
        assignment_outcome(old, new),
        robots_placed(old),
    ensures
        robots_placed(new),
{
    assert forall|i: int| 0 <= i < new.robots@.len() implies {
        let r = (#[trigger] new.robots@[i])@;
        &&& in_play(new, r.position)
        &&& forall|j: int| 0 <= j < r.path.len() ==> in_play(new, #[trigger] r.path[j])
    } by {
        let r = old.robots@[i]@;
        let nr = new.robots@[i]@;
        assert(assigned(old, r, nr, crate::assignment::targets_after(old, i)));
        assert(in_play(old, r.position) && forall|j: int| 0 <= j < r.path.len() ==> in_play(old, #[trigger] r.path[j]));
        if nr.path != r.path {
            lemma_route_in_play(
                old,
                r.position,
                crate::assignment::targets_after(old, i)[crate::assignment::first_nearest(
                    crate::assignment::targets_after(old, i),
                    r.position,
                )],
                nr.path,
            );
        }
    }
}

proof fn lemma_remove_facts(s: Seq<Pos>, i: int)
    requires
        0 <= i < s.len(),
        s.no_duplicates(),
    ensures
        s.remove(i).no_duplicates(),
        !s.remove(i).contains(s[i]),
        forall|x: Pos| s.remove(i).contains(x) ==> s.contains(x),
{
    let r = s.remove(i);
    assert forall|a: int, b: int| 0 <= a < b < r.len() implies r[a] != r[b] by {
        let a2 = if a < i { a } else { a + 1 };
        let b2 = if b < i { b } else { b + 1 };
        assert(r[a] == s[a2] && r[b] == s[b2]);
    }
    if r.contains(s[i]) {
        let j = choose|j: int| 0 <= j < r.len() && r[j] == s[i];
        let j2 = if j < i { j } else { j + 1 };
        assert(r[j] == s[j2]);
    }
    assert forall|x: Pos| r.contains(x) implies s.contains(x) by {
        let j = choose|j: int| 0 <= j < r.len() && r[j] == x;
        let j2 = if j < i { j } else { j + 1 };
        assert(r[j] == s[j2]);
    }
}

proof fn lemma_available_sub(s: Seq<Pos>, collected: Seq<Pos>, rs: Seq<crate::robot::Robot>)
    requires
        s.no_duplicates(),
    ensures
        available(s, collected, rs).no_duplicates(),
        forall|x: Pos| #[trigger] available(s, collected, rs).contains(x) ==> s.contains(x) && !collected.contains(x)
            && !targeted_by(rs, x),
    decreases s.len(),
{
    if s.len() > 0 {
        let t = s.drop_last();
        assert(t.no_duplicates()) by {
            assert forall|a: int, b: int| 0 <= a < b < t.len() implies t[a] != t[b] by {
                assert(t[a] == s[a] && t[b] == s[b]);
            }
        }
        lemma_available_sub(t, collected, rs);
        let rest = available(t, collected, rs);
        let a = available(s, collected, rs);
        assert forall|x: Pos| #[trigger] rest.contains(x) implies s.contains(x) by {
            let j = choose|j: int| 0 <= j < t.len() && t[j] == x;
            assert(s[j] == x);
        }
        if !collected.contains(s.last()) && !targeted_by(rs, s.last()) {
            assert(!rest.contains(s.last())) by {
                if rest.contains(s.last()) {
                    let j = choose|j: int| 0 <= j < t.len() && t[j] == s.last();
                    assert(s[j] == s[s.len() - 1]);
                }
            }
            assert forall|p: int, q: int| 0 <= p < q < a.len() implies a[p] != a[q] by {
                if q == a.len() - 1 {
                    assert(rest.contains(a[p]));
                }
            }
            assert forall|x: Pos| #[trigger] a.contains(x) implies s.contains(x) && !collected.contains(x)
                && !targeted_by(rs, x) by {
                let j = choose|j: int| 0 <= j < a.len() && a[j] == x;
                if j < rest.len() {
                    assert(rest.contains(x));
                } else {
                    assert(s[s.len() - 1] == x);
                }
            }
        }
    }
}

/// The targets on offer never repeat, and none is collected or targeted.
proof fn lemma_initial_targets(s: &SimulationState)
    requires
        s.wf(),
        discoveries_disjoint(s),
    ensures
        initial_targets(s).no_duplicates(),
        forall|x: Pos| #[trigger] initial_targets(s).contains(x) ==> !targeted_by(s.robots@, x),
{
    let a = available(s.discovered_crystals@, s.collected_crystals@, s.robots@);
    let b = available(s.discovered_energy@, s.collected_energy@, s.robots@);
    lemma_available_sub(s.discovered_crystals@, s.collected_crystals@, s.robots@);
    lemma_available_sub(s.discovered_energy@, s.collected_energy@, s.robots@);
    let c = a + b;
    assert forall|p: int, q: int| 0 <= p < q < c.len() implies c[p] != c[q] by {
        if p < a.len() && q >= a.len() {
            assert(a.contains(c[p]));
            assert(b.contains(c[q]));
            assert(b[q - a.len()] == c[q]);
        } else if p >= a.len() {
            assert(c[p] == b[p - a.len()] && c[q] == b[q - a.len()]);
        }
    }
    assert forall|x: Pos| #[trigger] c.contains(x) implies !targeted_by(s.robots@, x) by {
        let j = choose|j: int| 0 <= j < c.len() && c[j] == x;
        if j < a.len() {
            assert(a.contains(x));
        } else {
            assert(b[j - a.len()] == x);
            assert(b.contains(x));
        }
    }
}

/// The target handed to robot `k` when it gets one.
pub open spec fn target_of(s: &SimulationState, k: int) -> Pos {
    targets_after(s, k)[first_nearest(targets_after(s, k), s.robots@[k]@.position)]
}

proof fn lemma_targets_shrink(s: &SimulationState, k: int)
    requires
        s.wf(),
        discoveries_disjoint(s),
        0 <= k <= s.robots@.len(),
    ensures
        targets_after(s, k).no_duplicates(),
        forall|x: Pos| #[trigger] targets_after(s, k).contains(x) ==> initial_targets(s).contains(x),
        forall|j: int|
            0 <= j < k && gets_target(s, s.robots@[j]@, targets_after(s, j)) ==> !targets_after(s, k).contains(
                #[trigger] target_of(s, j),
            ),
    decreases k,
{
    if k == 0 {
        lemma_initial_targets(s);
    } else {
        lemma_targets_shrink(s, k - 1);
        let ts = targets_after(s, k - 1);
        let r = s.robots@[k - 1]@;
        if gets_target(s, r, ts) {
            lemma_first_nearest(ts, r.position);
            lemma_remove_facts(ts, first_nearest(ts, r.position));
            assert(targets_after(s, k) == ts.remove(first_nearest(ts, r.position)));
            assert forall|x: Pos| #[trigger] targets_after(s, k).contains(x) implies initial_targets(s).contains(x) by {
                assert(ts.contains(x));
            }
        }
    }
}

/// Assignment never sends two collectors after the same resource, nor after a
/// resource that some collector is already heading for or collecting on.
pub proof fn lemma_assignment_distinct_targets(s: &SimulationState, new: &SimulationState, k1: int, k2: int)
    requires
        s.wf(),
        discoveries_disjoint(s),
        assignment_outcome(s, new),
        0 <= k1 < k2 < s.robots@.len(),
        gets_target(s, s.robots@[k1]@, targets_after(s, k1)),
        gets_target(s, s.robots@[k2]@, targets_after(s, k2)),
    ensures
        new.robots@[k1]@.path.last() == target_of(s, k1),
        new.robots@[k2]@.path.last() == target_of(s, k2),
        target_of(s, k1) != target_of(s, k2),
        !targeted_by(s.robots@, target_of(s, k1)),
        !targeted_by(s.robots@, target_of(s, k2)),
{
    assert(assigned(s, s.robots@[k1]@, new.robots@[k1]@, targets_after(s, k1)));
    assert(assigned(s, s.robots@[k2]@, new.robots@[k2]@, targets_after(s, k2)));
    lemma_targets_shrink(s, k2);
    lemma_targets_shrink(s, k1);
    lemma_initial_targets(s);
    let t2 = targets_after(s, k2);
    lemma_first_nearest(t2, s.robots@[k2]@.position);
    assert(t2.contains(target_of(s, k2)));
    let t1 = targets_after(s, k1);
    lemma_first_nearest(t1, s.robots@[k1]@.position);
    assert(t1.contains(target_of(s, k1)));
}

/// How many ticks a collector spends on a cell holding `q` units when it
/// already carries `c`: until the cell is empty or the collector is full.
pub open spec fn collect_ticks(q: int, c: int) -> int {
    if q < COLLECTOR_CAPACITY - c {
        q
    } else {
        COLLECTOR_CAPACITY - c
    }
}

/// A collector left alone on a crystal cell holding `q` units, carrying
/// `cc` crystals and `ce` energy (less than it can hold), takes one crystal
/// per tick: it keeps collecting until it has taken `collect_ticks(q, cc + ce)`
/// units, then heads for the base; the cell holds that much less.
pub proof fn lemma_collecting_run(
    steps: Seq<SimulationState>,
    id: int,
    n: int,
    pos: Pos,
    q: u32,
    cc: u32,
    ce: u32,
)
    requires
        steps.len() == n + 1,
        0 <= id < steps[0].robots@.len(),
        forall|i: int| #![trigger steps[i]] 0 <= i < n ==> tick_outcome(&steps[i], &steps[i + 1], id),
        steps[0].robots@[id]@.robot_type == RobotType::Collector,
        steps[0].robots@[id]@.state == RobotState::Collecting,
        steps[0].robots@[id]@.position == pos,
        steps[0].robots@[id]@.carried_crystals == cc,
        steps[0].robots@[id]@.carried_energy == ce,
        terrain_at(&steps[0].map, pos.0 as int, pos.1 as int) == Terrain::Crystal,
        steps[0].resource_quantities.spec_get(pos) == Some(q),
        1 <= q,
        cc + ce < COLLECTOR_CAPACITY,
        0 <= n <= collect_ticks(q as int, cc + ce),
    ensures
        forall|i: int|
            #![trigger steps[i]]
            0 <= i <= n ==> {
                &&& steps[i].map == steps[0].map
                &&& steps[i].robots@.len() == steps[0].robots@.len()
                &&& steps[i].robots@[id]@.robot_type == RobotType::Collector
                &&& steps[i].robots@[id]@.position == pos
                &&& steps[i].robots@[id]@.carried_crystals == cc + i
                &&& steps[i].robots@[id]@.carried_energy == ce
                &&& steps[i].resource_quantities.spec_get(pos) == Some((q - i) as u32)
                &&& steps[i].robots@[id]@.state == if i < collect_ticks(q as int, cc + ce) {
                    RobotState::Collecting
                } else {
                    RobotState::ReturningToBase
                }
            },
    decreases n,
{
    if n > 0 {
        let pre = steps.take(n);
        assert forall|i: int| #![trigger pre[i]] 0 <= i < n - 1 implies tick_outcome(&pre[i], &pre[i + 1], id) by {
            assert(pre[i] == steps[i]);
            assert(pre[i + 1] == steps[i + 1]);
        }
        assert(pre[0] == steps[0]);
        lemma_collecting_run(pre, id, n - 1, pos, q, cc, ce);
        let m = n - 1;
        let a = steps[m];
        let b = steps[m + 1];
        assert(pre[m] == a);
        assert(tick_outcome(&a, &b, id));
        assert(a.robots@[id]@.state == RobotState::Collecting);
        assert(collecting_outcome(&a, &b, id));
        assert forall|i: int| #![trigger steps[i]] 0 <= i <= n implies {
            &&& steps[i].map == steps[0].map
            &&& steps[i].robots@.len() == steps[0].robots@.len()
            &&& steps[i].robots@[id]@.robot_type == RobotType::Collector
            &&& steps[i].robots@[id]@.position == pos
            &&& steps[i].robots@[id]@.carried_crystals == cc + i
            &&& steps[i].robots@[id]@.carried_energy == ce
            &&& steps[i].resource_quantities.spec_get(pos) == Some((q - i) as u32)
            &&& steps[i].robots@[id]@.state == if i < collect_ticks(q as int, cc + ce) {
                RobotState::Collecting
            } else {
                RobotState::ReturningToBase
            }
        } by {
            if i < n {
                assert(pre[i] == steps[i]);
            }
        }
    }
}

/// A collector that assignment sends out heads for a target on offer, and no
/// target on offer lies nearer to it: the target's squared Euclidean distance
/// (x difference squared plus y difference squared) from the collector is the
/// least among them.
pub proof fn lemma_assigned_target_nearest(s: &SimulationState, new: &SimulationState, k: int)
    requires
        assignment_outcome(s, new),
        0 <= k < s.robots@.len(),
        s.robots@[k]@.state != RobotState::MovingToResource,
        new.robots@[k]@.state == RobotState::MovingToResource,
    ensures
        ({
            let p = s.robots@[k]@.position;
            let ts = targets_after(s, k);
            let t = new.robots@[k]@.path.last();
            &&& new.robots@[k]@.path.len() > 0
            &&& ts.contains(t)
            &&& forall|u: Pos|
                #[trigger] ts.contains(u) ==> (t.0 - p.0) * (t.0 - p.0) + (t.1 - p.1) * (t.1 - p.1) <= (u.0
                    - p.0) * (u.0 - p.0) + (u.1 - p.1) * (u.1 - p.1)
        }),
{
    let r = s.robots@[k]@;
    let nr = new.robots@[k]@;
    let ts = targets_after(s, k);
    assert(assigned(s, r, nr, ts));
    assert(gets_target(s, r, ts));
    lemma_first_nearest(ts, r.position);
    let b = first_nearest(ts, r.position);
    assert(is_shortest_route(&s.map, s.width as int, s.height as int, s.base_pos, r.position, ts[b], nr.path));
    assert(nr.path.last() == ts[b]);
    assert forall|u: Pos| #[trigger] ts.contains(u) implies (ts[b].0 - r.position.0) * (ts[b].0 - r.position.0) + (
    ts[b].1 - r.position.1) * (ts[b].1 - r.position.1) <= (u.0 - r.position.0) * (u.0 - r.position.0) + (u.1
        - r.position.1) * (u.1 - r.position.1) by {
        let j = choose|j: int| 0 <= j < ts.len() && ts[j] == u;
        assert(crate::assignment::dist2(ts[b], r.position) <= crate::assignment::dist2(ts[j], r.position));
    }
}

/// A collecting tick that takes the last unit of a crystal or energy cell
/// empties the cell, marks it collected in the set of its kind, loads the unit
/// and sends the collector home.
pub proof fn lemma_exhausted_cell_collected(old: &SimulationState, new: &SimulationState, id: int)
    requires
        0 <= id < old.robots@.len(),
        collecting_outcome(old, new, id),
    ensures
        ({
            let r = old.robots@[id]@;
            let pos = r.position;
            let t = terrain_at(&old.map, pos.0 as int, pos.1 as int);
            old.resource_quantities.spec_get(pos) == Some(1u32) && (t == Terrain::Crystal || t == Terrain::Energy)
                ==> {
                &&& new.resource_quantities.spec_get(pos) == Some(0u32)
                &&& t == Terrain::Crystal ==> new.collected_crystals@.contains(pos)
                    && new.robots@[id]@.carried_crystals == r.carried_crystals + 1
                &&& t == Terrain::Energy ==> new.collected_energy@.contains(pos)
                    && new.robots@[id]@.carried_energy == r.carried_energy + 1
                &&& new.robots@[id]@.state == RobotState::ReturningToBase
            }
        }),
{
    let pos = old.robots@[id]@.position;
    if !old.collected_crystals@.contains(pos) {
        assert(old.collected_crystals@.push(pos)[old.collected_crystals@.len() as int] == pos);
    }
    if !old.collected_energy@.contains(pos) {
        assert(old.collected_energy@.push(pos)[old.collected_energy@.len() as int] == pos);
    }
}

/// A scout that ends its tick on a stocked crystal or energy cell not yet
/// collected has that cell among the discovered cells of its kind, and forgets
/// no earlier discovery.
pub proof fn lemma_scout_discovers(old: &SimulationState, new: &SimulationState, id: int, occupied: Set<Pos>)
    requires
        0 <= id < old.robots@.len(),
        scouting_outcome(old, new, id, occupied),
    ensures
        ({
            let pos = new.robots@[id]@.position;
            let t = terrain_at(&old.map, pos.0 as int, pos.1 as int);
            old.resource_quantities.spec_get(pos) matches Some(q) && q > 0 ==> {
                &&& t == Terrain::Crystal && !old.collected_crystals@.contains(pos)
                    ==> new.discovered_crystals@.contains(pos)
                &&& t == Terrain::Energy && !old.collected_energy@.contains(pos)
                    ==> new.discovered_energy@.contains(pos)
            }
        }),
        forall|p: Pos| #[trigger] old.discovered_crystals@.contains(p) ==> new.discovered_crystals@.contains(p),
        forall|p: Pos| #[trigger] old.discovered_energy@.contains(p) ==> new.discovered_energy@.contains(p),
{
    assert forall|p: Pos| #[trigger] old.discovered_crystals@.contains(p) implies new.discovered_crystals@.contains(p) by {
        let i = choose|i: int| 0 <= i < old.discovered_crystals@.len() && old.discovered_crystals@[i] == p;
        let pos = new.robots@[id]@.position;
        if !old.discovered_crystals@.contains(pos) {
            assert(old.discovered_crystals@.push(pos)[i] == p);
        }
    }
    assert forall|p: Pos| #[trigger] old.discovered_energy@.contains(p) implies new.discovered_energy@.contains(p) by {
        let i = choose|i: int| 0 <= i < old.discovered_energy@.len() && old.discovered_energy@[i] == p;
        let pos = new.robots@[id]@.position;
        if !old.discovered_energy@.contains(pos) {
            assert(old.discovered_energy@.push(pos)[i] == p);
        }
    }
    let pos = new.robots@[id]@.position;
    if !old.discovered_crystals@.contains(pos) {
        assert(old.discovered_crystals@.push(pos)[old.discovered_crystals@.len() as int] == pos);
    }
    if !old.discovered_energy@.contains(pos) {
        assert(old.discovered_energy@.push(pos)[old.discovered_energy@.len() as int] == pos);
    }
}

} // verus!
