//! Breadth-first search for the shortest route between two cells.

use std::collections::VecDeque;

use vstd::prelude::*;

use crate::collections::PositionSet;
use crate::world::{
    adjacent, clamped_step, dir, direction, grid_wf, in_base, is_base_cell,
    is_obstacle, lemma_grid_cell_defined, size_ok, step, terrain_at, Pos, Terrain,
};

verus! {

/// A cell that a route heading for `to` may enter: no obstacle, and no base
/// cell unless the route itself goes to the base.
pub open spec fn passable(map: &Vec<Vec<Terrain>>, n: Pos, to: Pos, base: Pos) -> bool {
    &&& terrain_at(map, n.0 as int, n.1 as int) != Terrain::Obstacle
    &&& (!in_base(n.0 as int, n.1 as int, base) || in_base(to.0 as int, to.1 as int, base))
}

/// The cell a walk stands on before entering `p[i]`.
pub open spec fn prev_cell(from: Pos, p: Seq<Pos>, i: int) -> Pos {
    if i == 0 {
        from
    } else {
        p[i - 1]
    }
}

/// Where a walk from `from` along `p` ends.
pub open spec fn walk_end(from: Pos, p: Seq<Pos>) -> Pos {
    if p.len() == 0 {
        from
    } else {
        p.last()
    }
}

/// `p` lists, one unit move at a time, the passable cells entered when
/// walking from `from` (which is not listed) towards `to`.
pub open spec fn is_walk(
    map: &Vec<Vec<Terrain>>,
    width: int,
    height: int,
    base: Pos,
    from: Pos,
    to: Pos,
    p: Seq<Pos>,
) -> bool {
    forall|i: int|
        0 <= i < p.len() ==> adjacent(prev_cell(from, p, i), #[trigger] p[i], width, height)
            && passable(map, p[i], to, base)
}

/// A non-empty walk from `from` that ends on `to`.
pub open spec fn is_route(
    map: &Vec<Vec<Terrain>>,
    width: int,
    height: int,
    base: Pos,
    from: Pos,
    to: Pos,
    p: Seq<Pos>,
) -> bool {
    &&& is_walk(map, width, height, base, from, to, p)
    &&& p.len() > 0
    &&& p.last() == to
}

pub open spec fn reachable(
    map: &Vec<Vec<Terrain>>,
    width: int,
    height: int,
    base: Pos,
    from: Pos,
    to: Pos,
) -> bool {
    exists|p: Seq<Pos>| #[trigger] is_route(map, width, height, base, from, to, p)
}

/// A route from `from` to `to` that no other route is shorter than.
pub open spec fn is_shortest_route(
    map: &Vec<Vec<Terrain>>,
    width: int,
    height: int,
    base: Pos,
    from: Pos,
    to: Pos,
    p: Seq<Pos>,
) -> bool {
    &&& is_route(map, width, height, base, from, to, p)
    &&& forall|q: Seq<Pos>|
        #[trigger] is_route(map, width, height, base, from, to, q) ==> p.len() <= q.len()
}

/// What `bfs` returns: a shortest route when `to` can be reached from another
/// cell, and an empty path when `from == to` or `to` cannot be reached.
pub open spec fn bfs_result(
    map: &Vec<Vec<Terrain>>,
    width: int,
    height: int,
    base: Pos,
    from: Pos,
    to: Pos,
    p: Seq<Pos>,
) -> bool {
    &&& p.len() > 0 ==> from != to && is_shortest_route(map, width, height, base, from, to, p)
    &&& p.len() == 0 ==> from == to || !reachable(map, width, height, base, from, to)
}

/// The place of the move from `c` to `n` in the order up, down, left, right
/// that the search tries (4 when no single move leads there).
pub open spec fn move_rank(c: Pos, n: Pos, width: int, height: int) -> int {
    if n == step(c, dir(0), width, height) {
        0
    } else if n == step(c, dir(1), width, height) {
        1
    } else if n == step(c, dir(2), width, height) {
        2
    } else if n == step(c, dir(3), width, height) {
        3
    } else {
        4
    }
}

/// Walks `a` and `b` from `from` agree before index `i`, and there `a` takes
/// an earlier move than `b`.
pub open spec fn parts_before(from: Pos, a: Seq<Pos>, b: Seq<Pos>, i: int, width: int, height: int) -> bool {
    &&& 0 <= i < a.len()
    &&& i < b.len()
    &&& forall|t: int| 0 <= t < i ==> a[t] == b[t]
    &&& move_rank(prev_cell(from, a, i), a[i], width, height) < move_rank(
        prev_cell(from, b, i),
        b[i],
        width,
        height,
    )
}

/// Walk `a` comes before walk `b`: where they first part, `a` takes the move
/// that comes first in the order up, down, left, right.
pub open spec fn route_before(from: Pos, a: Seq<Pos>, b: Seq<Pos>, width: int, height: int) -> bool {
    exists|i: int| #[trigger] parts_before(from, a, b, i, width, height)
}

/// `p` is the shortest route that comes before every other shortest route.
pub open spec fn least_route(
    map: &Vec<Vec<Terrain>>,
    width: int,
    height: int,
    base: Pos,
    from: Pos,
    to: Pos,
    p: Seq<Pos>,
) -> bool {
    &&& is_shortest_route(map, width, height, base, from, to, p)
    &&& forall|q: Seq<Pos>|
        #[trigger] is_shortest_route(map, width, height, base, from, to, q) && q != p ==> route_before(
            from,
            p,
            q,
            width,
            height,
        )
}

/// The route `bfs` returns: among the shortest routes from `from` to `to`,
/// the one whose moves come first in the order up, down, left, right; empty
/// when `from == to` or there is no route.
pub open spec fn bfs_route(
    map: &Vec<Vec<Terrain>>,
    width: int,
    height: int,
    base: Pos,
    from: Pos,
    to: Pos,
) -> Seq<Pos> {
    if from != to && exists|p: Seq<Pos>| least_route(map, width, height, base, from, to, p) {
        choose|p: Seq<Pos>| least_route(map, width, height, base, from, to, p)
    } else {
        Seq::empty()
    }
}

/// A walk that comes before a prefix of another keeps coming before it when
/// either is extended.
proof fn lemma_before_extend(
    from: Pos,
    a: Seq<Pos>,
    b: Seq<Pos>,
    a2: Seq<Pos>,
    b2: Seq<Pos>,
    width: int,
    height: int,
)
    requires
        route_before(from, a, b, width, height),
        a.len() <= a2.len(),
        b.len() <= b2.len(),
        forall|t: int| 0 <= t < a.len() ==> a2[t] == a[t],
        forall|t: int| 0 <= t < b.len() ==> b2[t] == b[t],
    ensures
        route_before(from, a2, b2, width, height),
{
    let i = choose|i: int| #[trigger] parts_before(from, a, b, i, width, height);
    assert(prev_cell(from, a2, i) == prev_cell(from, a, i));
    assert(prev_cell(from, b2, i) == prev_cell(from, b, i));
    assert forall|t: int| 0 <= t < i implies a2[t] == b2[t] by {
        assert(a[t] == b[t]);
    }
    assert(parts_before(from, a2, b2, i, width, height));
}

/// Coming before is transitive.
proof fn lemma_before_trans(from: Pos, a: Seq<Pos>, b: Seq<Pos>, c: Seq<Pos>, width: int, height: int)
    requires
        route_before(from, a, b, width, height),
        route_before(from, b, c, width, height),
    ensures
        route_before(from, a, c, width, height),
{
    let i = choose|i: int| #[trigger] parts_before(from, a, b, i, width, height);
    let j = choose|j: int| #[trigger] parts_before(from, b, c, j, width, height);
    if i < j {
        assert(b[i] == c[i]);
        assert(prev_cell(from, b, i) == prev_cell(from, c, i));
        assert(prev_cell(from, a, i) == prev_cell(from, b, i));
        assert(parts_before(from, a, c, i, width, height));
    } else if j < i {
        assert(a[j] == b[j]);
        assert(prev_cell(from, a, j) == prev_cell(from, b, j));
        assert(prev_cell(from, b, j) == prev_cell(from, c, j));
        assert(parts_before(from, a, c, j, width, height));
    } else {
        assert(prev_cell(from, a, i) == prev_cell(from, b, i));
        assert(prev_cell(from, b, i) == prev_cell(from, c, i));
        assert(parts_before(from, a, c, i, width, height));
    }
}

/// Two walks never come before each other.
proof fn lemma_before_asym(from: Pos, a: Seq<Pos>, b: Seq<Pos>, width: int, height: int)
    ensures
        !(route_before(from, a, b, width, height) && route_before(from, b, a, width, height)),
{
    if route_before(from, a, b, width, height) && route_before(from, b, a, width, height) {
        let i = choose|i: int| #[trigger] parts_before(from, a, b, i, width, height);
        let j = choose|j: int| #[trigger] parts_before(from, b, a, j, width, height);
        if i < j {
            assert(a[i] == b[i]);
        } else if j < i {
            assert(a[j] == b[j]);
        }
        assert(prev_cell(from, a, i) == prev_cell(from, b, i));
        assert(prev_cell(from, a, j) == prev_cell(from, b, j));
    }
}

/// A least route is the route `bfs_route` names.
proof fn lemma_bfs_route_is(
    map: &Vec<Vec<Terrain>>,
    width: int,
    height: int,
    base: Pos,
    from: Pos,
    to: Pos,
    p: Seq<Pos>,
)
    requires
        from != to,
        least_route(map, width, height, base, from, to, p),
    ensures
        bfs_route(map, width, height, base, from, to) == p,
{
    let c = choose|c: Seq<Pos>| least_route(map, width, height, base, from, to, c);
    assert(least_route(map, width, height, base, from, to, c));
    if c != p {
        assert(is_shortest_route(map, width, height, base, from, to, c));
        assert(is_shortest_route(map, width, height, base, from, to, p));
        lemma_before_asym(from, p, c, width, height);
    }
}

/// The inputs `bfs` accepts: a well-formed map of at most `i16::MAX` cells
/// each way, and a start whose coordinates a signed unit step cannot wrap
/// (every cell of such a map; starts of 32767 or more lie off every map).
pub open spec fn bfs_inputs_ok(
    map: &Vec<Vec<Terrain>>,
    width: int,
    height: int,
    base: Pos,
    from: Pos,
) -> bool {
    &&& grid_wf(map)
    &&& size_ok(width)
    &&& size_ok(height)
    &&& width * height <= usize::MAX
    &&& from.0 < i16::MAX
    &&& from.1 < i16::MAX
    &&& base.0 < u16::MAX
    &&& base.1 < u16::MAX
}

/// Every cell of a walk lies inside the outer rim of the map.
pub proof fn lemma_walk_interior(
    map: &Vec<Vec<Terrain>>,
    width: int,
    height: int,
    base: Pos,
    from: Pos,
    to: Pos,
    p: Seq<Pos>,
)
    requires
        is_walk(map, width, height, base, from, to, p),
        size_ok(width),
        size_ok(height),
    ensures
        forall|i: int|
            0 <= i < p.len() ==> 1 <= (#[trigger] p[i]).0 <= width - 2 && 1 <= p[i].1 <= height - 2,
{
    assert forall|i: int| 0 <= i < p.len() implies 1 <= (#[trigger] p[i]).0 <= width - 2 && 1 <= p[i].1
        <= height - 2 by {
        let c = prev_cell(from, p, i);
        assert(adjacent(c, p[i], width, height));
    }
}

spec fn in_grid(c: Pos, width: int, height: int) -> bool {
    c.0 < width && c.1 < height
}

spec fn key(c: Pos, width: int) -> int {
    c.1 * width + c.0
}

spec fn count_false(s: Seq<bool>) -> nat
    decreases s.len(),
{
    if s.len() == 0 {
        0
    } else {
        count_false(s.drop_last()) + if s.last() {
            0nat
        } else {
            1nat
        }
    }
}

proof fn lemma_count_false_set(s: Seq<bool>, i: int)
    requires
        0 <= i < s.len(),
        !s[i],
    ensures
        count_false(s.update(i, true)) + 1 == count_false(s),
    decreases s.len(),
{
    let u = s.update(i, true);
    if i < s.len() - 1 {
        assert(u.drop_last() == s.drop_last().update(i, true));
        lemma_count_false_set(s.drop_last(), i);
    } else {
        assert(u.drop_last() == s.drop_last());
    }
}

proof fn lemma_key(x1: int, y1: int, x2: int, y2: int, w: int, h: int)
    requires
        0 <= x1 < w,
        0 <= y1 < h,
        0 <= x2 < w,
        0 <= y2 < h,
    ensures
        0 <= y1 * w + x1 < w * h,
        y1 * w + x1 == y2 * w + x2 ==> x1 == x2 && y1 == y2,
{
    assert(0 <= y1 * w + x1 < w * h) by (nonlinear_arith)
        requires
            0 <= x1 < w,
            0 <= y1 < h,
    ;
    assert(y1 * w + x1 == y2 * w + x2 ==> x1 == x2 && y1 == y2) by (nonlinear_arith)
        requires
            0 <= x1 < w,
            0 <= y1 < h,
            0 <= x2 < w,
            0 <= y2 < h,
    ;
}

/// The queue entries are walks from `from` ending on their cell.
spec fn entries_ok(
    q: Seq<(Pos, Vec<Pos>)>,
    map: &Vec<Vec<Terrain>>,
    width: int,
    height: int,
    base: Pos,
    from: Pos,
    to: Pos,
) -> bool {
    forall|i: int|
        0 <= i < q.len() ==> {
            &&& is_walk(map, width, height, base, from, to, #[trigger] q[i].1@)
            &&& walk_end(from, q[i].1@) == q[i].0
            &&& q[i].0.0 < i16::MAX
            &&& q[i].0.1 < i16::MAX
        }
}

spec fn monotone(q: Seq<(Pos, Vec<Pos>)>) -> bool {
    forall|i: int, j: int| 0 <= i <= j < q.len() ==> #[trigger] q[i].1@.len() <= #[trigger] q[j].1@.len()
}

/// Every passable neighbour of an entry before `upto` is in the queue, one
/// move further at most.
spec fn closed_upto(
    q: Seq<(Pos, Vec<Pos>)>,
    upto: int,
    map: &Vec<Vec<Terrain>>,
    width: int,
    height: int,
    base: Pos,
    to: Pos,
) -> bool {
    forall|i: int, k: int|
        0 <= i < upto && 0 <= k < 4 && passable(map, #[trigger] step(q[i].0, dir(k), width, height), to, base)
            ==> exists|j: int|
            0 <= j < q.len() && #[trigger] q[j].0 == step(q[i].0, dir(k), width, height) && q[j].1@.len()
                <= q[i].1@.len() + 1
}

/// Every prefix of a walk no longer than `lim` ends on a queued cell reached by
/// a queued walk no longer than it, provided every entry shorter than `lim`
/// has been expanded.
proof fn lemma_walk_in_queue(
    q: Seq<(Pos, Vec<Pos>)>,
    head: int,
    lim: int,
    map: &Vec<Vec<Terrain>>,
    width: int,
    height: int,
    base: Pos,
    from: Pos,
    to: Pos,
    p: Seq<Pos>,
)
    requires
        q.len() > 0,
        q[0].0 == from,
        q[0].1@.len() == 0,
        forall|j: int| 0 <= j < q.len() && #[trigger] q[j].1@.len() < lim ==> j < head,
        closed_upto(q, head, map, width, height, base, to),
        is_walk(map, width, height, base, from, to, p),
        p.len() <= lim,
    ensures
        exists|j: int| 0 <= j < q.len() && q[j].0 == walk_end(from, p) && q[j].1@.len() <= p.len(),
    decreases p.len(),
{
    if p.len() == 0 {
        assert(q[0].0 == walk_end(from, p));
    } else {
        let pre = p.drop_last();
        assert forall|i: int| 0 <= i < pre.len() implies adjacent(
            prev_cell(from, pre, i),
            #[trigger] pre[i],
            width,
            height,
        ) && passable(map, pre[i], to, base) by {
            assert(pre[i] == p[i]);
            assert(prev_cell(from, pre, i) == prev_cell(from, p, i));
        }
        lemma_walk_in_queue(q, head, lim, map, width, height, base, from, to, pre);
        let j0 = choose|j: int|
            0 <= j < q.len() && q[j].0 == walk_end(from, pre) && q[j].1@.len() <= pre.len();
        assert(j0 < head);
        let n = p.len() - 1;
        assert(prev_cell(from, p, n) == walk_end(from, pre));
        let c = p[n];
        assert(adjacent(walk_end(from, pre), c, width, height) && passable(map, c, to, base));
        let k = if c == step(q[j0].0, dir(0), width, height) {
            0int
        } else if c == step(q[j0].0, dir(1), width, height) {
            1int
        } else if c == step(q[j0].0, dir(2), width, height) {
            2int
        } else {
            3int
        };
        assert(c == step(q[j0].0, dir(k), width, height));
        assert(passable(map, step(q[j0].0, dir(k), width, height), to, base));
        let j1 = choose|j: int|
            0 <= j < q.len() && #[trigger] q[j].0 == step(q[j0].0, dir(k), width, height) && q[j].1@.len()
                <= q[j0].1@.len() + 1;
        assert(q[j1].0 == walk_end(from, p));
    }
}

/// A copy of the cells of `p`.
fn copy_path(p: &Vec<Pos>) -> (r: Vec<Pos>)
    ensures
        r@ == p@,
{
    let mut r: Vec<Pos> = Vec::new();
    let n = p.len();
    let mut i: usize = 0;
    while i < n
        invariant
            n == p@.len(),
            i <= n,
            r@ == p@.subrange(0, i as int),
        decreases n - i,
    {
        r.push(p[i]);
        i += 1;
    }
    assert(r@ == p@);
    r
}

/// The cells of `p` as a double-ended queue.
fn to_deque(p: &Vec<Pos>) -> (r: VecDeque<Pos>)
    ensures
        r@ == p@,
{
    let mut r: VecDeque<Pos> = VecDeque::new();
    let n = p.len();
    let mut i: usize = 0;
    while i < n
        invariant
            n == p@.len(),
            i <= n,
            r@ == p@.subrange(0, i as int),
        decreases n - i,
    {
        r.push_back(p[i]);
        i += 1;
    }
    assert(r@ == p@);
    r
}

/// Queued cells inside the grid are marked visited.
spec fn visit_sound(q: Seq<(Pos, Vec<Pos>)>, v: Seq<bool>, width: int, height: int) -> bool {
    forall|i: int|
        0 <= i < q.len() && in_grid(#[trigger] q[i].0, width, height) ==> v[key(q[i].0, width)]
}

/// Visited marks belong to queued cells.
spec fn visit_complete(q: Seq<(Pos, Vec<Pos>)>, v: Seq<bool>, width: int, height: int) -> bool {
    forall|k: int|
        0 <= k < v.len() && #[trigger] v[k] ==> exists|i: int|
            0 <= i < q.len() && in_grid(#[trigger] q[i].0, width, height) && key(q[i].0, width) == k
}

/// Entries whose walks have the same length come in the order of their walks.
spec fn sorted_routes(q: Seq<(Pos, Vec<Pos>)>, from: Pos, width: int, height: int) -> bool {
    forall|i: int, j: int|
        #![trigger q[i], q[j]]
        0 <= i < j < q.len() && q[i].1@.len() == q[j].1@.len() ==> route_before(
            from,
            q[i].1@,
            q[j].1@,
            width,
            height,
        )
}

/// Each entry's walk comes before every other walk of its length to its cell.
spec fn least_entries(
    q: Seq<(Pos, Vec<Pos>)>,
    map: &Vec<Vec<Terrain>>,
    width: int,
    height: int,
    base: Pos,
    from: Pos,
    to: Pos,
) -> bool {
    forall|j: int, r: Seq<Pos>|
        #![trigger q[j], is_walk(map, width, height, base, from, to, r)]
        0 <= j < q.len() && is_walk(map, width, height, base, from, to, r) && walk_end(from, r) == q[j].0
            && r.len() == q[j].1@.len() && r != q[j].1@ ==> route_before(from, q[j].1@, r, width, height)
}

/// The entries one move longer than `hp` extend a walk that comes before
/// `hp`, or extend `hp` itself by one of its first `k` moves.
spec fn frontier_ok(q: Seq<(Pos, Vec<Pos>)>, hp: Seq<Pos>, k: int, from: Pos, width: int, height: int) -> bool {
    forall|j: int|
        0 <= j < q.len() && (#[trigger] q[j]).1@.len() == hp.len() + 1 ==> route_before(
            from,
            q[j].1@.drop_last(),
            hp,
            width,
            height,
        ) || (q[j].1@.drop_last() == hp && move_rank(walk_end(from, hp), q[j].1@.last(), width, height)
            < k)
}

/// The search state after expanding the first `head` queue entries.
spec fn search_inv(
    q: Seq<(Pos, Vec<Pos>)>,
    v: Seq<bool>,
    head: int,
    map: &Vec<Vec<Terrain>>,
    width: int,
    height: int,
    base: Pos,
    from: Pos,
    to: Pos,
) -> bool {
    &&& bfs_inputs_ok(map, width, height, base, from)
    &&& v.len() == width * height
    &&& 0 < q.len()
    &&& 0 <= head <= q.len()
    &&& q[0].0 == from
    &&& q[0].1@.len() == 0
    &&& entries_ok(q, map, width, height, base, from, to)
    &&& monotone(q)
    &&& sorted_routes(q, from, width, height)
    &&& least_entries(q, map, width, height, base, from, to)
    &&& visit_sound(q, v, width, height)
    &&& visit_complete(q, v, width, height)
    &&& closed_upto(q, head, map, width, height, base, to)
    &&& forall|i: int| 0 <= i < head ==> #[trigger] q[i].0 != to
}

/// The passable neighbours in the first `k` directions of `cell` are queued.
spec fn dirs_done(
    q: Seq<(Pos, Vec<Pos>)>,
    cell: Pos,
    hlen: int,
    k: int,
    map: &Vec<Vec<Terrain>>,
    width: int,
    height: int,
    base: Pos,
    to: Pos,
) -> bool {
    forall|kk: int|
        0 <= kk < k && passable(map, #[trigger] step(cell, dir(kk), width, height), to, base) ==> exists|
            j: int,
        |
            0 <= j < q.len() && #[trigger] q[j].0 == step(cell, dir(kk), width, height) && q[j].1@.len()
                <= hlen + 1
}

/// The walk of entry `head` extended to an unvisited passable neighbour `nb`
/// by the first move that reaches it comes before every other walk of its
/// length to `nb`.
proof fn lemma_new_least(
    q: Seq<(Pos, Vec<Pos>)>,
    v: Seq<bool>,
    head: int,
    map: &Vec<Vec<Terrain>>,
    width: int,
    height: int,
    base: Pos,
    from: Pos,
    to: Pos,
    k: int,
    nb: Pos,
    r: Seq<Pos>,
)
    requires
        search_inv(q, v, head, map, width, height, base, from, to),
        head < q.len(),
        0 <= k < 4,
        nb == step(q[head].0, dir(k), width, height),
        passable(map, nb, to, base),
        move_rank(q[head].0, nb, width, height) == k,
        in_grid(nb, width, height),
        !v[key(nb, width)],
        is_walk(map, width, height, base, from, to, r),
        walk_end(from, r) == nb,
        r.len() == q[head].1@.len() + 1,
        r != q[head].1@.push(nb),
    ensures
        route_before(from, q[head].1@.push(nb), r, width, height),
{
    let hp = q[head].1@;
    let hlen = hp.len() as int;
    let np = hp.push(nb);
    let pre = r.drop_last();
    assert forall|i: int| 0 <= i < pre.len() implies adjacent(
        prev_cell(from, pre, i),
        #[trigger] pre[i],
        width,
        height,
    ) && passable(map, pre[i], to, base) by {
        assert(pre[i] == r[i]);
        assert(prev_cell(from, pre, i) == prev_cell(from, r, i));
    }
    let u = walk_end(from, pre);
    assert(prev_cell(from, r, hlen) == u);
    assert(r[hlen] == nb);
    assert(adjacent(u, nb, width, height));
    assert forall|j: int| 0 <= j < q.len() && #[trigger] q[j].1@.len() < hlen implies j < head by {
        if j >= head {
            assert(q[head].1@.len() <= q[j].1@.len());
        }
    }
    lemma_walk_in_queue(q, head, hlen, map, width, height, base, from, to, pre);
    let j1 = choose|j: int| 0 <= j < q.len() && q[j].0 == walk_end(from, pre) && q[j].1@.len() <= pre.len();
    if j1 < head {
        let kk = if nb == step(u, dir(0), width, height) {
            0int
        } else if nb == step(u, dir(1), width, height) {
            1int
        } else if nb == step(u, dir(2), width, height) {
            2int
        } else {
            3int
        };
        assert(nb == step(q[j1].0, dir(kk), width, height));
        assert(passable(map, step(q[j1].0, dir(kk), width, height), to, base));
        let jj = choose|j: int|
            0 <= j < q.len() && #[trigger] q[j].0 == step(q[j1].0, dir(kk), width, height)
                && q[j].1@.len() <= q[j1].1@.len() + 1;
        assert(in_grid(q[jj].0, width, height));
        assert(v[key(q[jj].0, width)]);
        assert(false);
    }
    assert(q[head].1@.len() <= q[j1].1@.len());
    assert(q[j1].1@.len() == hlen);
    assert(is_walk(map, width, height, base, from, to, pre));
    assert forall|t: int| 0 <= t < hp.len() implies np[t] == hp[t] by {}
    assert forall|t: int| 0 <= t < pre.len() implies r[t] == pre[t] by {}
    if j1 == head {
        if pre == hp {
            assert(r =~= np);
        }
        assert(route_before(from, hp, pre, width, height));
        lemma_before_extend(from, hp, pre, np, r, width, height);
    } else {
        assert(route_before(from, hp, q[j1].1@, width, height));
        if pre != q[j1].1@ {
            assert(route_before(from, q[j1].1@, pre, width, height));
            lemma_before_trans(from, hp, q[j1].1@, pre, width, height);
        }
        lemma_before_extend(from, hp, pre, np, r, width, height);
    }
}

/// Queues the neighbour of entry `head` in direction `k` unless it is visited
/// or impassable.
#[verifier::rlimit(40)]
#[verifier::spinoff_prover]
fn expand(
    map: &Vec<Vec<Terrain>>,
    visited: &mut Vec<bool>,
    queue: &mut Vec<(Pos, Vec<Pos>)>,
    head: usize,
    k: usize,
    from: Pos,
    to: Pos,
    width: usize,
    height: usize,
    base_pos: Pos,
)
    requires
        k < 4,
        search_inv(
            old(queue)@,
            old(visited)@,
            head as int,
            map,
            width as int,
            height as int,
            base_pos,
            from,
            to,
        ),
        head < old(queue)@.len(),
        old(queue)@[head as int].0 != to,
        forall|j: int|
            0 <= j < old(queue)@.len() ==> #[trigger] old(queue)@[j].1@.len() <= old(queue)@[head as int].1@.len()
                + 1,
        dirs_done(
            old(queue)@,
            old(queue)@[head as int].0,
            old(queue)@[head as int].1@.len() as int,
            k as int,
            map,
            width as int,
            height as int,
            base_pos,
            to,
        ),
        frontier_ok(
            old(queue)@,
            old(queue)@[head as int].1@,
            k as int,
            from,
            width as int,
            height as int,
        ),
    ensures
        search_inv(
            final(queue)@,
            final(visited)@,
            head as int,
            map,
            width as int,
            height as int,
            base_pos,
            from,
            to,
        ),
        old(queue)@.len() <= final(queue)@.len(),
        forall|i: int| 0 <= i < old(queue)@.len() ==> #[trigger] final(queue)@[i] == old(queue)@[i],
        forall|j: int|
            0 <= j < final(queue)@.len() ==> #[trigger] final(queue)@[j].1@.len() <= old(queue)@[head as int].1@.len()
                + 1,
        dirs_done(
            final(queue)@,
            old(queue)@[head as int].0,
            old(queue)@[head as int].1@.len() as int,
            k + 1,
            map,
            width as int,
            height as int,
            base_pos,
            to,
        ),
        2 * count_false(final(visited)@) + final(queue)@.len() <= 2 * count_false(old(visited)@) + old(
            queue,
        )@.len(),
        frontier_ok(
            final(queue)@,
            old(queue)@[head as int].1@,
            k + 1,
            from,
            width as int,
            height as int,
        ),
{
    let ghost w = width as int;
    let ghost h = height as int;
    let ghost q0 = queue@;
    let ghost vis0 = visited@;
    let ghost cell = q0[head as int].0;
    let ghost hlen = q0[head as int].1@.len() as int;
    assert(entries_ok(q0, map, w, h, base_pos, from, to));
    assert(is_walk(map, w, h, base_pos, from, to, q0[head as int].1@));
    let x = queue[head].0.0;
    let y = queue[head].0.1;
    let (dx, dy) = direction(k);
    let nx = clamped_step(x, dx, width);
    let ny = clamped_step(y, dy, height);
    let ghost nb: Pos = (nx, ny);
    assert(nb == step(cell, dir(k as int), w, h));
    proof {
        lemma_key(nx as int, ny as int, nx as int, ny as int, w, h);
    }
    let key_n = ny as usize * width + nx as usize;
    if visited[key_n] {
        proof {
            let i = choose|i: int|
                0 <= i < q0.len() && in_grid(#[trigger] q0[i].0, w, h) && key(q0[i].0, w)
                    == key_n as int;
            lemma_key(q0[i].0.0 as int, q0[i].0.1 as int, nx as int, ny as int, w, h);
            assert(q0[i].0 == nb);
        }
        return ;
    }
    proof {
        lemma_grid_cell_defined(map, nx as int, ny as int);
    }
    let passable_here = !is_obstacle(map, nx, ny) && (!is_base_cell(nx, ny, base_pos)
        || is_base_cell(to.0, to.1, base_pos));
    if passable_here {
        proof {
            assert(passable(map, nb, to, base_pos));
            assert(in_grid(nb, w, h));
            assert(key(nb, w) == key_n as int);
            assert forall|kk: int| 0 <= kk < k implies step(cell, dir(kk), w, h) != nb by {
                if step(cell, dir(kk), w, h) == nb {
                    let j = choose|j: int|
                        0 <= j < q0.len() && #[trigger] q0[j].0 == step(cell, dir(kk), w, h)
                            && q0[j].1@.len() <= hlen + 1;
                    assert(in_grid(q0[j].0, w, h));
                    assert(vis0[key(q0[j].0, w)]);
                }
            }
            assert(move_rank(cell, nb, w, h) == k);
            lemma_count_false_set(visited@, key_n as int);
        }
        visited.set(key_n, true);
        let mut new_path = copy_path(&queue[head].1);
        new_path.push((nx, ny));
        let ghost np = new_path@;
        proof {
            let old_p = q0[head as int].1@;
            assert(np == old_p.push(nb));
            assert forall|i: int| 0 <= i < np.len() implies adjacent(
                prev_cell(from, np, i),
                #[trigger] np[i],
                w,
                h,
            ) && passable(map, np[i], to, base_pos) by {
                if i < old_p.len() {
                    assert(np[i] == old_p[i]);
                    assert(prev_cell(from, np, i) == prev_cell(from, old_p, i));
                } else {
                    assert(prev_cell(from, np, i) == walk_end(from, old_p));
                }
            }
        }
        queue.push(((nx, ny), new_path));
        proof {
            let q1 = queue@;
            assert(q1 == q0.push((nb, new_path)));
            assert(q1[q0.len() as int].0 == nb);
            assert forall|i: int| 0 <= i < q1.len() implies {
                &&& is_walk(map, w, h, base_pos, from, to, #[trigger] q1[i].1@)
                &&& walk_end(from, q1[i].1@) == q1[i].0
                &&& q1[i].0.0 < i16::MAX
                &&& q1[i].0.1 < i16::MAX
            } by {
                if i < q0.len() {
                    assert(q1[i] == q0[i]);
                }
            }
            assert forall|i: int, j: int| 0 <= i <= j < q1.len() implies #[trigger] q1[i].1@.len()
                <= #[trigger] q1[j].1@.len() by {
                if j < q0.len() {
                    assert(q1[i] == q0[i]);
                    assert(q1[j] == q0[j]);
                } else if i < q0.len() {
                    assert(q1[i] == q0[i]);
                }
            }
            assert forall|kk: int| 0 <= kk < visited@.len() && #[trigger] visited@[kk] implies exists|
                i: int,
            |
                0 <= i < q1.len() && in_grid(#[trigger] q1[i].0, w, h) && key(q1[i].0, w) == kk by {
                if kk != key_n as int {
                    assert(vis0[kk]);
                    let i = choose|i: int|
                        0 <= i < q0.len() && in_grid(#[trigger] q0[i].0, w, h) && key(q0[i].0, w)
                            == kk;
                    assert(q1[i] == q0[i]);
                }
            }
            assert forall|i: int| 0 <= i < q1.len() && in_grid(#[trigger] q1[i].0, w, h) implies visited@[key(
                q1[i].0,
                w,
            )] by {
                lemma_key(q1[i].0.0 as int, q1[i].0.1 as int, nx as int, ny as int, w, h);
                if i < q0.len() {
                    assert(q1[i] == q0[i]);
                    if key(q0[i].0, w) != key_n as int {
                        assert(vis0[key(q0[i].0, w)]);
                    }
                }
            }
            assert forall|ii: int, kk: int|
                0 <= ii < head && 0 <= kk < 4 && passable(
                    map,
                    #[trigger] step(q1[ii].0, dir(kk), w, h),
                    to,
                    base_pos,
                ) implies exists|j: int|
                0 <= j < q1.len() && #[trigger] q1[j].0 == step(q1[ii].0, dir(kk), w, h)
                    && q1[j].1@.len() <= q1[ii].1@.len() + 1 by {
                assert(q1[ii] == q0[ii]);
                let j = choose|j: int|
                    0 <= j < q0.len() && #[trigger] q0[j].0 == step(q0[ii].0, dir(kk), w, h)
                        && q0[j].1@.len() <= q0[ii].1@.len() + 1;
                assert(q1[j] == q0[j]);
            }
            assert forall|kk: int|
                0 <= kk < k + 1 && passable(map, #[trigger] step(cell, dir(kk), w, h), to, base_pos)
                    implies exists|j: int|
                    0 <= j < q1.len() && #[trigger] q1[j].0 == step(cell, dir(kk), w, h)
                        && q1[j].1@.len() <= hlen + 1 by {
                if kk != k {
                    let j = choose|j: int|
                        0 <= j < q0.len() && #[trigger] q0[j].0 == step(cell, dir(kk), w, h)
                            && q0[j].1@.len() <= hlen + 1;
                    assert(q1[j] == q0[j]);
                }
            }
            assert forall|i: int| 0 <= i < head implies #[trigger] q1[i].0 != to by {
                assert(q1[i] == q0[i]);
            }
            assert forall|j: int| 0 <= j < q1.len() implies #[trigger] q1[j].1@.len() <= hlen + 1 by {
                if j < q0.len() {
                    assert(q1[j] == q0[j]);
                }
            }
            let hp = q0[head as int].1@;
            let n = q0.len() as int;
            assert(q1[n].1@ == hp.push(nb));
            assert(walk_end(from, hp) == cell);
            assert forall|i: int, j: int|
                #![trigger q1[i], q1[j]]
                0 <= i < j < q1.len() && q1[i].1@.len() == q1[j].1@.len() implies route_before(
                from,
                q1[i].1@,
                q1[j].1@,
                w,
                h,
            ) by {
                assert(q1[i] == q0[i]);
                if j < n {
                    assert(q1[j] == q0[j]);
                } else {
                    let a = q0[i].1@;
                    let dl = a.drop_last();
                    assert(q0[i].1@.len() == hp.len() + 1);
                    assert forall|t: int| 0 <= t < dl.len() implies a[t] == dl[t] by {}
                    assert forall|t: int| 0 <= t < hp.len() implies q1[j].1@[t] == hp[t] by {}
                    if route_before(from, dl, hp, w, h) {
                        lemma_before_extend(from, dl, hp, a, q1[j].1@, w, h);
                    } else {
                        assert(dl == hp && move_rank(walk_end(from, hp), a.last(), w, h) < k);
                        let hl = hp.len() as int;
                        assert(prev_cell(from, a, hl) == walk_end(from, dl));
                        assert(prev_cell(from, q1[j].1@, hl) == walk_end(from, hp));
                        assert(a[hl] == a.last());
                        assert(parts_before(from, a, q1[j].1@, hl, w, h));
                    }
                }
            }
            assert forall|j: int, r: Seq<Pos>|
                #![trigger q1[j], is_walk(map, w, h, base_pos, from, to, r)]
                0 <= j < q1.len() && is_walk(map, w, h, base_pos, from, to, r) && walk_end(from, r) == q1[j].0
                    && r.len() == q1[j].1@.len() && r != q1[j].1@ implies route_before(
                from,
                q1[j].1@,
                r,
                w,
                h,
            ) by {
                if j < n {
                    assert(q1[j] == q0[j]);
                } else {
                    lemma_new_least(q0, vis0, head as int, map, w, h, base_pos, from, to, k as int, nb, r);
                }
            }
            assert forall|j: int|
                0 <= j < q1.len() && (#[trigger] q1[j]).1@.len() == hp.len() + 1 implies route_before(
                from,
                q1[j].1@.drop_last(),
                hp,
                w,
                h,
            ) || (q1[j].1@.drop_last() == hp && move_rank(walk_end(from, hp), q1[j].1@.last(), w, h)
                < k + 1) by {
                if j < n {
                    assert(q1[j] == q0[j]);
                } else {
                    assert(q1[j].1@.drop_last() =~= hp);
                }
            }
        }
    } else {
        assert(!passable(map, nb, to, base_pos));
    }
}

/// The path found at entry `head`, whose cell is `to`, is a shortest route.
proof fn lemma_found(
    q: Seq<(Pos, Vec<Pos>)>,
    v: Seq<bool>,
    head: int,
    map: &Vec<Vec<Terrain>>,
    width: int,
    height: int,
    base: Pos,
    from: Pos,
    to: Pos,
)
    requires
        search_inv(q, v, head, map, width, height, base, from, to),
        head < q.len(),
        q[head].0 == to,
    ensures
        bfs_result(map, width, height, base, from, to, q[head].1@),
        q[head].1@ == bfs_route(map, width, height, base, from, to),
{
    let p = q[head].1@;
    let d = p.len() as int;
    assert(is_walk(map, width, height, base, from, to, p));
    if head == 0 {
        assert(p.len() == 0);
        assert(p =~= Seq::<Pos>::empty());
    } else {
        assert(q[0].0 != to);
        if p.len() == 0 {
            assert(walk_end(from, p) == from);
        }
        assert forall|r: Seq<Pos>| #[trigger] is_route(map, width, height, base, from, to, r) implies d
            <= r.len() by {
            if r.len() < d {
                assert forall|j: int| 0 <= j < q.len() && #[trigger] q[j].1@.len() < d implies j
                    < head by {
                    if j >= head {
                        assert(q[head].1@.len() <= q[j].1@.len());
                    }
                }
                lemma_walk_in_queue(q, head, d, map, width, height, base, from, to, r);
                let j = choose|j: int|
                    0 <= j < q.len() && q[j].0 == walk_end(from, r) && q[j].1@.len() <= r.len();
                assert(j < head);
                assert(q[j].0 == to);
            }
        }
        assert forall|r: Seq<Pos>|
            #[trigger] is_shortest_route(map, width, height, base, from, to, r) && r != p implies route_before(
            from,
            p,
            r,
            width,
            height,
        ) by {
            assert(is_route(map, width, height, base, from, to, p));
            assert(r.len() == d);
            assert(walk_end(from, r) == to);
            assert(is_walk(map, width, height, base, from, to, r));
        }
        assert(least_route(map, width, height, base, from, to, p));
        lemma_bfs_route_is(map, width, height, base, from, to, p);
    }
}

/// With every entry expanded and `to` never met, `to` cannot be reached.
proof fn lemma_exhausted(
    q: Seq<(Pos, Vec<Pos>)>,
    v: Seq<bool>,
    map: &Vec<Vec<Terrain>>,
    width: int,
    height: int,
    base: Pos,
    from: Pos,
    to: Pos,
)
    requires
        search_inv(q, v, q.len() as int, map, width, height, base, from, to),
    ensures
        !reachable(map, width, height, base, from, to),
        bfs_route(map, width, height, base, from, to) == Seq::<Pos>::empty(),
{
    assert forall|r: Seq<Pos>| !#[trigger] is_route(map, width, height, base, from, to, r) by {
        if is_route(map, width, height, base, from, to, r) {
            lemma_walk_in_queue(q, q.len() as int, r.len() as int, map, width, height, base, from, to, r);
            let j = choose|j: int|
                0 <= j < q.len() && q[j].0 == walk_end(from, r) && q[j].1@.len() <= r.len();
            assert(q[j].0 == to);
        }
    }
    if exists|p: Seq<Pos>| least_route(map, width, height, base, from, to, p) {
        let p = choose|p: Seq<Pos>| least_route(map, width, height, base, from, to, p);
        assert(is_route(map, width, height, base, from, to, p));
    }
}

/// Breadth-first search over the playable area from `from` to `to`.
///
/// Moves are the four unit steps clamped to the area inside the outer rim;
/// obstacle cells are never entered, nor are base cells unless `to` is itself
/// a base cell. Neighbours are tried up, down, left, right, so the returned
/// path is the shortest route whose moves come first in that order
/// (`bfs_route`); it leaves out `from` and ends on `to`. The two position sets
/// are accepted and left unread.
pub fn bfs(
    map: &Vec<Vec<Terrain>>,
    _collected_crystals: &PositionSet,
    _collected_energy: &PositionSet,
    from: Pos,
    to: Pos,
    width: usize,
    height: usize,
    base_pos: Pos,
) -> (path: VecDeque<Pos>)
    requires
        bfs_inputs_ok(map, width as int, height as int, base_pos, from),
    ensures
        bfs_result(map, width as int, height as int, base_pos, from, to, path@),
        path@ == bfs_route(map, width as int, height as int, base_pos, from, to),
{
    let ghost w = width as int;
    let ghost h = height as int;
    let n = width * height;
    let mut visited: Vec<bool> = Vec::new();
    while visited.len() < n
        invariant
            visited@.len() <= n,
            forall|k: int| 0 <= k < visited@.len() ==> !#[trigger] visited@[k],
        decreases n - visited@.len(),
    {
        visited.push(false);
    }
    let inside = (from.0 as usize) < width && (from.1 as usize) < height;
    if inside {
        proof {
            lemma_key(from.0 as int, from.1 as int, from.0 as int, from.1 as int, w, h);
        }
        visited.set(from.1 as usize * width + from.0 as usize, true);
    }
    let mut queue: Vec<(Pos, Vec<Pos>)> = Vec::new();
    queue.push((from, Vec::new()));
    proof {
        let q = queue@;
        assert(q[0].0 == from);
        assert forall|k: int| 0 <= k < visited@.len() && #[trigger] visited@[k] implies exists|i: int|
            0 <= i < q.len() && in_grid(#[trigger] q[i].0, w, h) && key(q[i].0, w) == k by {
            assert(inside);
            assert(k == key(from, w));
            assert(in_grid(q[0].0, w, h));
        }
        assert forall|i: int| 0 <= i < q.len() && in_grid(#[trigger] q[i].0, w, h) implies visited@[key(
            q[i].0,
            w,
        )] by {
            assert(i == 0);
        }
        assert forall|j: int, r: Seq<Pos>|
            #![trigger q[j], is_walk(map, w, h, base_pos, from, to, r)]
            0 <= j < q.len() && is_walk(map, w, h, base_pos, from, to, r) && walk_end(from, r) == q[j].0
                && r.len() == q[j].1@.len() && r != q[j].1@ implies route_before(from, q[j].1@, r, w, h) by {
            assert(j == 0);
            assert(r =~= q[j].1@);
        }
        assert(search_inv(q, visited@, 0, map, w, h, base_pos, from, to));
    }
    let mut head: usize = 0;

    while head < queue.len()
        invariant
            search_inv(queue@, visited@, head as int, map, w, h, base_pos, from, to),
            w == width,
            h == height,
            head < queue@.len() ==> forall|j: int|
                0 <= j < queue@.len() ==> #[trigger] queue@[j].1@.len() <= queue@[head as int].1@.len()
                    + 1,
            head < queue@.len() ==> frontier_ok(queue@, queue@[head as int].1@, 0, from, w, h),
        decreases 2 * count_false(visited@) + queue@.len() - head,
    {
        let x = queue[head].0.0;
        let y = queue[head].0.1;
        if x == to.0 && y == to.1 {
            proof {
                lemma_found(queue@, visited@, head as int, map, w, h, base_pos, from, to);
            }
            return to_deque(&queue[head].1);
        }
        let ghost q0 = queue@;
        let ghost cf0 = count_false(visited@);
        for k in 0..4
            invariant
                search_inv(queue@, visited@, head as int, map, w, h, base_pos, from, to),
                w == width,
                h == height,
                head < q0.len(),
                q0.len() <= queue@.len(),
                forall|i: int| 0 <= i < q0.len() ==> #[trigger] queue@[i] == q0[i],
                q0[head as int].0 != to,
                forall|j: int|
                    0 <= j < queue@.len() ==> #[trigger] queue@[j].1@.len() <= q0[head as int].1@.len() + 1,
                dirs_done(
                    queue@,
                    q0[head as int].0,
                    q0[head as int].1@.len() as int,
                    k as int,
                    map,
                    w,
                    h,
                    base_pos,
                    to,
                ),
                2 * count_false(visited@) + queue@.len() <= 2 * cf0 + q0.len(),
                frontier_ok(queue@, q0[head as int].1@, k as int, from, w, h),
        {
            assert(queue@[head as int] == q0[head as int]);
            let ghost qb = queue@;
            expand(map, &mut visited, &mut queue, head, k, from, to, width, height, base_pos);
            assert forall|i: int| 0 <= i < q0.len() implies #[trigger] queue@[i] == q0[i] by {
                assert(qb[i] == q0[i]);
            }
        }
        proof {
            let q1 = queue@;
            let hd = head as int;
            assert(q1[hd] == q0[hd]);
            assert forall|i: int, kk: int|
                0 <= i < hd + 1 && 0 <= kk < 4 && passable(
                    map,
                    #[trigger] step(q1[i].0, dir(kk), w, h),
                    to,
                    base_pos,
                ) implies exists|j: int|
                0 <= j < q1.len() && #[trigger] q1[j].0 == step(q1[i].0, dir(kk), w, h) && q1[j].1@.len()
                    <= q1[i].1@.len() + 1 by {
                if i == hd {
                    assert(q1[i] == q0[hd]);
                }
            }
            assert forall|i: int| 0 <= i < hd + 1 implies #[trigger] q1[i].0 != to by {
                if i == hd {
                    assert(q1[i] == q0[hd]);
                }
            }
            if hd + 1 < q1.len() {
                assert forall|j: int| 0 <= j < q1.len() implies #[trigger] q1[j].1@.len() <= q1[hd
                    + 1].1@.len() + 1 by {
                    assert(q1[hd].1@.len() <= q1[hd + 1].1@.len());
                }
                let hp = q1[hd].1@;
                let np = q1[hd + 1].1@;
                assert(hp.len() <= np.len());
                assert forall|j: int|
                    0 <= j < q1.len() && (#[trigger] q1[j]).1@.len() == np.len() + 1 implies route_before(
                    from,
                    q1[j].1@.drop_last(),
                    np,
                    w,
                    h,
                ) || (q1[j].1@.drop_last() == np && move_rank(walk_end(from, np), q1[j].1@.last(), w, h)
                    < 0) by {
                    assert(q1[j].1@.len() <= hp.len() + 1);
                    assert(np.len() == hp.len());
                    assert(route_before(from, hp, np, w, h));
                    if route_before(from, q1[j].1@.drop_last(), hp, w, h) {
                        lemma_before_trans(from, q1[j].1@.drop_last(), hp, np, w, h);
                    }
                }
            }
        }
        head += 1;
    }
    proof {
        lemma_exhausted(queue@, visited@, map, w, h, base_pos, from, to);
    }
    VecDeque::new()
}

} // verus!
