//! Handing discovered resources out to idle collectors.

use vstd::prelude::*;

use crate::collections::PositionSet;
use crate::pathfinding::{bfs, bfs_route, is_shortest_route, lemma_walk_interior, reachable};
use crate::robot::{pos_ok, Robot, RobotState, RobotType, RobotView};
use crate::simulation::{lemma_carried_update, robot_ok, SimulationState};
use crate::world::Pos;

verus! {

/// Squared Euclidean distance between two cells.
pub open spec fn dist2(a: Pos, b: Pos) -> int {
    (a.0 - b.0) * (a.0 - b.0) + (a.1 - b.1) * (a.1 - b.1)
}

/// The index of the first of the cells of `ts` nearest to `p`.
pub open spec fn first_nearest(ts: Seq<Pos>, p: Pos) -> int
    decreases ts.len(),
{
    if ts.len() <= 1 {
        0
    } else {
        let k = first_nearest(ts.drop_last(), p);
        if dist2(ts.last(), p) < dist2(ts[k], p) {
            ts.len() - 1
        } else {
            k
        }
    }
}

pub proof fn lemma_first_nearest(ts: Seq<Pos>, p: Pos)
    requires
        ts.len() > 0,
    ensures
        0 <= first_nearest(ts, p) < ts.len(),
        forall|j: int| 0 <= j < ts.len() ==> dist2(ts[first_nearest(ts, p)], p) <= dist2(#[trigger] ts[j], p),
        forall|j: int| 0 <= j < first_nearest(ts, p) ==> dist2(ts[first_nearest(ts, p)], p) < dist2(#[trigger] ts[j], p),
    decreases ts.len(),
{
    if ts.len() > 1 {
        let t = ts.drop_last();
        lemma_first_nearest(t, p);
        let k = first_nearest(t, p);
        let b = first_nearest(ts, p);
        assert(t[k] == ts[k]);
        assert forall|j: int| 0 <= j < ts.len() implies dist2(ts[b], p) <= dist2(#[trigger] ts[j], p) by {
            if j < t.len() {
                assert(t[j] == ts[j]);
            }
        }
        assert forall|j: int| 0 <= j < b implies dist2(ts[b], p) < dist2(#[trigger] ts[j], p) by {
            if j < t.len() {
                assert(t[j] == ts[j]);
            }
        }
    }
}

/// A collector with nothing to do.
pub open spec fn idle_collector(r: RobotView) -> bool {
    r.robot_type == RobotType::Collector && r.state == RobotState::Exploring
}

/// A cell some collector is already heading for or collecting on.
pub open spec fn targeted_by(rs: Seq<Robot>, p: Pos) -> bool {
    exists|j: int|
        0 <= j < rs.len() && #[trigger] rs[j].robot_type == RobotType::Collector && {
            let r = rs[j]@;
            ||| r.path.len() > 0 && r.path.last() == p
            ||| r.path.len() == 0 && r.state == RobotState::Collecting && r.position == p
        }
}

/// The cells of `s`, in order, that are neither collected nor targeted.
pub open spec fn available(s: Seq<Pos>, collected: Seq<Pos>, rs: Seq<Robot>) -> Seq<Pos>
    decreases s.len(),
{
    if s.len() == 0 {
        s
    } else {
        let rest = available(s.drop_last(), collected, rs);
        if !collected.contains(s.last()) && !targeted_by(rs, s.last()) {
            rest.push(s.last())
        } else {
            rest
        }
    }
}

/// The targets on offer at the start: discovered crystals, then discovered
/// energy, neither collected nor targeted.
pub open spec fn initial_targets(s: &SimulationState) -> Seq<Pos> {
    available(s.discovered_crystals@, s.collected_crystals@, s.robots@) + available(
        s.discovered_energy@,
        s.collected_energy@,
        s.robots@,
    )
}

/// Robot `r` gets the nearest target of `ts` when it is an idle collector and
/// that target can be reached.
pub open spec fn gets_target(s: &SimulationState, r: RobotView, ts: Seq<Pos>) -> bool {
    idle_collector(r) && ts.len() > 0 && {
        let t = ts[first_nearest(ts, r.position)];
        r.position != t && reachable(&s.map, s.width as int, s.height as int, s.base_pos, r.position, t)
    }
}

/// The targets still on offer once the robots before `k` have been served.
pub open spec fn targets_after(s: &SimulationState, k: int) -> Seq<Pos>
    decreases k,
{
    if k <= 0 {
        initial_targets(s)
    } else {
        let ts = targets_after(s, k - 1);
        let r = s.robots@[k - 1]@;
        if gets_target(s, r, ts) {
            ts.remove(first_nearest(ts, r.position))
        } else {
            ts
        }
    }
}

/// What assignment makes of robot `r` when `ts` is on offer: it sets out on
/// the route `bfs` finds to its target, or stays as it was.
pub open spec fn assigned(s: &SimulationState, r: RobotView, nr: RobotView, ts: Seq<Pos>) -> bool {
    if gets_target(s, r, ts) {
        &&& is_shortest_route(
            &s.map,
            s.width as int,
            s.height as int,
            s.base_pos,
            r.position,
            ts[first_nearest(ts, r.position)],
            nr.path,
        )
        &&& nr.path == bfs_route(
            &s.map,
            s.width as int,
            s.height as int,
            s.base_pos,
            r.position,
            ts[first_nearest(ts, r.position)],
        )
        &&& nr == RobotView { path: nr.path, state: RobotState::MovingToResource, ..r }
    } else {
        nr == r
    }
}

fn distance2(a: Pos, b: Pos) -> (d: i32)
    requires
        pos_ok(a),
        pos_ok(b),
    ensures
        d == dist2(a, b),
{
    let dx = a.0 as i32 - b.0 as i32;
    let dy = a.1 as i32 - b.1 as i32;
    assert(0 <= dx * dx <= 32766 * 32766) by (nonlinear_arith)
        requires
            -32766 <= dx <= 32766,
    ;
    assert(0 <= dy * dy <= 32766 * 32766) by (nonlinear_arith)
        requires
            -32766 <= dy <= 32766,
    ;
    dx * dx + dy * dy
}

/// Appends to `out` the cells of `s`, in order, that are neither collected
/// nor targeted.
fn push_available(
    out: &mut Vec<Pos>,
    s: &PositionSet,
    collected: &PositionSet,
    targeted: &PositionSet,
    Ghost(rs): Ghost<Seq<Robot>>,
)
    requires
        forall|p: Pos| targeted@.contains(p) <==> targeted_by(rs, p),
    ensures
        final(out)@ == old(out)@ + available(s@, collected@, rs),
{
    let ghost o = out@;
    let n = s.len();
    let mut i: usize = 0;
    while i < n
        invariant
            n == s@.len(),
            i <= n,
            forall|p: Pos| targeted@.contains(p) <==> targeted_by(rs, p),
            out@ == o + available(s@.take(i as int), collected@, rs),
        decreases n - i,
    {
        assert(s@.take(i + 1).drop_last() == s@.take(i as int));
        let p = s.get(i);
        if !collected.contains(&p) && !targeted.contains(&p) {
            out.push(p);
        }
        i += 1;
    }
    assert(s@.take(n as int) == s@);
}

/// Sends each idle collector, in order, to the nearest discovered resource
/// that is not collected and that no collector is already heading for or
/// collecting on; a resource handed out is no longer on offer to the
/// following collectors. A collector that cannot reach its resource stays idle.
#[verifier::rlimit(60)]
#[verifier::spinoff_prover]
pub fn assign_collectors(state: &mut SimulationState)
    requires
        old(state).wf(),
    ensures
        final(state).wf(),
        final(state).same_world(old(state)),
        final(state).same_stocks(old(state)),
        final(state).robots@.len() == old(state).robots@.len(),
        forall|k: int|
            0 <= k < old(state).robots@.len() ==> assigned(
                old(state),
                old(state).robots@[k]@,
                #[trigger] final(state).robots@[k]@,
                targets_after(old(state), k),
            ),
        final(state).crystal_mass() == old(state).crystal_mass(),
        final(state).energy_mass() == old(state).energy_mass(),
        final(state).mass() == old(state).mass(),
{
    let ghost old_s = *state;
    let nr = state.robots.len();
    let mut already_targeted = PositionSet::new();
    let mut i: usize = 0;
    while i < nr
        invariant
            nr == state.robots@.len(),
            *state == old_s,
            i <= nr,
            already_targeted.wf(),
            forall|p: Pos|
                already_targeted@.contains(p) <==> targeted_by(state.robots@.take(i as int), p),
        decreases nr - i,
    {
        let ghost rs = state.robots@;
        proof {
            assert forall|p: Pos| targeted_by(rs.take(i + 1), p) <==> targeted_by(rs.take(i as int), p) || (
            rs[i as int].robot_type == RobotType::Collector && {
                let r = rs[i as int]@;
                ||| r.path.len() > 0 && r.path.last() == p
                ||| r.path.len() == 0 && r.state == RobotState::Collecting && r.position == p
            }) by {
                if targeted_by(rs.take(i as int), p) {
                    let j = choose|j: int|
                        0 <= j < rs.take(i as int).len() && #[trigger] rs.take(i as int)[j].robot_type
                            == RobotType::Collector && {
                            let r = rs.take(i as int)[j]@;
                            ||| r.path.len() > 0 && r.path.last() == p
                            ||| r.path.len() == 0 && r.state == RobotState::Collecting && r.position == p
                        };
                    assert(rs.take(i + 1)[j] == rs[j]);
                }
                if targeted_by(rs.take(i + 1), p) {
                    let j = choose|j: int|
                        0 <= j < rs.take(i + 1).len() && #[trigger] rs.take(i + 1)[j].robot_type
                            == RobotType::Collector && {
                            let r = rs.take(i + 1)[j]@;
                            ||| r.path.len() > 0 && r.path.last() == p
                            ||| r.path.len() == 0 && r.state == RobotState::Collecting && r.position == p
                        };
                    if j < i {
                        assert(rs.take(i as int)[j] == rs[j]);
                    }
                }
                if rs[i as int].robot_type == RobotType::Collector && {
                    let r = rs[i as int]@;
                    ||| r.path.len() > 0 && r.path.last() == p
                    ||| r.path.len() == 0 && r.state == RobotState::Collecting && r.position == p
                } {
                    assert(rs.take(i + 1)[i as int] == rs[i as int]);
                }
            }
        }
        let ghost at0 = already_targeted@;
        if state.robots[i].robot_type == RobotType::Collector {
            let len = state.robots[i].path.len();
            if len > 0 {
                let last = state.robots[i].path[len - 1];
                already_targeted.insert(last);
            } else if state.robots[i].state == RobotState::Collecting {
                let p = state.robots[i].position;
                already_targeted.insert(p);
            }
        }
        proof {
            assert forall|p: Pos|
                already_targeted@.contains(p) <==> targeted_by(rs.take(i + 1), p) by {
                if at0.contains(p) {
                    assert(targeted_by(rs.take(i as int), p));
                }
            }
        }
        i += 1;
    }
    assert(state.robots@.take(nr as int) == state.robots@);

    let mut all_targets: Vec<Pos> = Vec::new();
    push_available(
        &mut all_targets,
        &state.discovered_crystals,
        &state.collected_crystals,
        &already_targeted,
        Ghost(state.robots@),
    );
    push_available(
        &mut all_targets,
        &state.discovered_energy,
        &state.collected_energy,
        &already_targeted,
        Ghost(state.robots@),
    );
    assert(all_targets@ == initial_targets(&old_s));
    proof {
        assert forall|j: int| 0 <= j < all_targets@.len() implies pos_ok(#[trigger] all_targets@[j]) by {
            lemma_available_ok(old_s.discovered_crystals@, old_s.collected_crystals@, old_s.robots@);
            lemma_available_ok(old_s.discovered_energy@, old_s.collected_energy@, old_s.robots@);
            let a = available(old_s.discovered_crystals@, old_s.collected_crystals@, old_s.robots@);
            if j >= a.len() {
                let b = available(old_s.discovered_energy@, old_s.collected_energy@, old_s.robots@);
                assert(all_targets@[j] == b[j - a.len()]);
            }
        }
    }

    let mut k: usize = 0;
    while k < nr
        invariant
            nr == state.robots@.len(),
            nr == old_s.robots@.len(),
            k <= nr,
            old_s.wf(),
            state.wf(),
            state.same_world(&old_s),
            state.same_stocks(&old_s),
            state.crystal_mass() == old_s.crystal_mass(),
            state.energy_mass() == old_s.energy_mass(),
            state.mass() == old_s.mass(),
            all_targets@ == targets_after(&old_s, k as int),
            forall|j: int| 0 <= j < all_targets@.len() ==> pos_ok(#[trigger] all_targets@[j]),
            forall|j: int|
                0 <= j < k ==> assigned(
                    &old_s,
                    old_s.robots@[j]@,
                    #[trigger] state.robots@[j]@,
                    targets_after(&old_s, j),
                ),
            forall|j: int| k <= j < nr ==> #[trigger] state.robots@[j] == old_s.robots@[j],
        decreases nr - k,
    {
        let ghost ts = all_targets@;
        let ghost r = old_s.robots@[k as int]@;
        assert(state.robots@[k as int] == old_s.robots@[k as int]);
        assert(robot_ok(r));
        let is_idle = state.robots[k].robot_type == RobotType::Collector && state.robots[k].state
            == RobotState::Exploring;
        let nt = all_targets.len();
        if is_idle && nt > 0 {
            let pos = state.robots[k].position;
            let mut best: usize = 0;
            let mut best_d = distance2(all_targets[0], pos);
            let mut j: usize = 1;
            while j < nt
                invariant
                    nt == all_targets@.len(),
                    1 <= j <= nt,
                    pos_ok(pos),
                    forall|jj: int| 0 <= jj < all_targets@.len() ==> pos_ok(#[trigger] all_targets@[jj]),
                    best == first_nearest(all_targets@.take(j as int), pos),
                    best < j,
                    best_d == dist2(all_targets@[best as int], pos),
                decreases nt - j,
            {
                assert(all_targets@.take(j + 1).drop_last() == all_targets@.take(j as int));
                assert(all_targets@.take(j as int)[best as int] == all_targets@[best as int]);
                let d = distance2(all_targets[j], pos);
                if d < best_d {
                    best = j;
                    best_d = d;
                }
                j += 1;
            }
            assert(all_targets@.take(nt as int) == all_targets@);
            let target = all_targets[best];
            let path = bfs(
                &state.map,
                &state.collected_crystals,
                &state.collected_energy,
                pos,
                target,
                state.width,
                state.height,
                state.base_pos,
            );
            if path.len() > 0 {
                proof {
                    lemma_walk_interior(
                        &state.map,
                        state.width as int,
                        state.height as int,
                        state.base_pos,
                        pos,
                        target,
                        path@,
                    );
                }
                let ghost before = *state;
                state.robots[k].path = path;
                state.robots[k].state = RobotState::MovingToResource;
                all_targets.remove(best);
                proof {
                    assert(state.robots@ =~= before.robots@.update(k as int, state.robots@[k as int]));
                    lemma_carried_update(before.robots@, k as int, state.robots@[k as int], true);
                    lemma_carried_update(before.robots@, k as int, state.robots@[k as int], false);
                    assert forall|jj: int| 0 <= jj < state.robots@.len() implies robot_ok(
                        #[trigger] state.robots@[jj]@,
                    ) by {
                        if jj != k {
                            assert(state.robots@[jj] == before.robots@[jj]);
                        }
                    }
                    assert forall|jj: int| 0 <= jj < all_targets@.len() implies pos_ok(
                        #[trigger] all_targets@[jj],
                    ) by {
                        if jj < best {
                            assert(all_targets@[jj] == ts[jj]);
                        } else {
                            assert(all_targets@[jj] == ts[jj + 1]);
                        }
                    }
                }
            }
        }
        proof {
            assert(targets_after(&old_s, k + 1) == all_targets@);
            assert forall|j: int| 0 <= j < k + 1 implies assigned(
                &old_s,
                old_s.robots@[j]@,
                #[trigger] state.robots@[j]@,
                targets_after(&old_s, j),
            ) by {
                if j < k {
                }
            }
        }
        k += 1;
    }
}

proof fn lemma_available_ok(s: Seq<Pos>, collected: Seq<Pos>, rs: Seq<Robot>)
    requires
        forall|i: int| 0 <= i < s.len() ==> pos_ok(#[trigger] s[i]),
    ensures
        forall|i: int|
            0 <= i < available(s, collected, rs).len() ==> pos_ok(#[trigger] available(s, collected, rs)[i]),
    decreases s.len(),
{
    if s.len() > 0 {
        assert forall|i: int| 0 <= i < s.drop_last().len() implies pos_ok(#[trigger] s.drop_last()[i]) by {
            assert(s.drop_last()[i] == s[i]);
        }
        lemma_available_ok(s.drop_last(), collected, rs);
        let rest = available(s.drop_last(), collected, rs);
        let a = available(s, collected, rs);
        assert forall|i: int| 0 <= i < a.len() implies pos_ok(#[trigger] a[i]) by {
            if i < rest.len() {
                assert(a[i] == rest[i]);
            } else {
                assert(a[i] == s[s.len() - 1]);
            }
        }
    }
}

} // verus!
