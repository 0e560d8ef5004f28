use vstd::prelude::*;

use crate::algorithm::{Algorithm, AlgorithmResult, AlgorithmType, Coord};
use crate::grid::{cell, in_bounds, on_wall, paint, painted, Node, NodeType};

verus! {

pub open spec fn int_abs(v: int) -> int {
    if v < 0 {
        -v
    } else {
        v
    }
}

/// Manhattan distance `|dx| + |dy|`.
pub open spec fn manhattan(a: Coord, b: Coord) -> int {
    int_abs(a.0 - b.0) + int_abs(a.1 - b.1)
}

/// `a` and `b` differ by one unit step along exactly one axis.
pub open spec fn adjacent(a: Coord, b: Coord) -> bool {
    manhattan(a, b) == 1
}

/// Each coordinate of `path` is one unit step away from the one before it.
pub open spec fn is_walk(path: Seq<Coord>) -> bool {
    forall|k: int| 0 <= k < path.len() - 1 ==> adjacent(#[trigger] path[k], path[k + 1])
}

/// A non-empty walk from `start` to `goal`.
pub open spec fn walk_between(path: Seq<Coord>, start: Coord, goal: Coord) -> bool {
    &&& path.len() > 0
    &&& path[0] == start
    &&& path.last() == goal
    &&& is_walk(path)
}

/// The cell `(x, y)` lies in the grid, has a coordinate that fits `i32`, and is not a wall.
pub open spec fn passable(cells: Seq<Vec<Node>>, x: int, y: int) -> bool {
    &&& in_bounds(cells, x, y)
    &&& x <= i32::MAX
    &&& y <= i32::MAX
    &&& cell(cells, x, y) != NodeType::Wall
}

/// The passable orthogonal neighbours of `c`, in the order up, down, left, right.
pub open spec fn neighbors_of(cells: Seq<Vec<Node>>, c: Coord) -> Seq<Coord> {
    let x = c.0 as int;
    let y = c.1 as int;
    let s0: Seq<Coord> = if passable(cells, x, y - 1) {
        seq![(c.0, (y - 1) as i32)]
    } else {
        seq![]
    };
    let s1 = if passable(cells, x, y + 1) {
        s0.push((c.0, (y + 1) as i32))
    } else {
        s0
    };
    let s2 = if passable(cells, x - 1, y) {
        s1.push(((x - 1) as i32, c.1))
    } else {
        s1
    };
    if passable(cells, x + 1, y) {
        s2.push(((x + 1) as i32, c.1))
    } else {
        s2
    }
}

/// A search node: a coordinate with its accumulated cost `g`, its heuristic
/// `h`, their sum `f`, and the coordinate it was reached from.
#[derive(Clone, Copy, Debug)]
pub struct AStarNode {
    pub coordinates: Coord,
    pub g: i32,
    pub h: i64,
    pub f: i64,
    pub parent: Option<Coord>,
}

/// `a` comes out of the frontier before `b`: smaller `f`, then smaller `h`.
pub open spec fn precedes(a: AStarNode, b: AStarNode) -> bool {
    a.f < b.f || (a.f == b.f && a.h < b.h)
}

/// No entry of `frontier` comes before entry `i`.
pub open spec fn is_min(frontier: Seq<AStarNode>, i: int) -> bool {
    &&& 0 <= i < frontier.len()
    &&& forall|k: int| 0 <= k < frontier.len() ==> !precedes(#[trigger] frontier[k], frontier[i])
}

/// A record of `c` has the parent `p`.
pub open spec fn parent_link(nodes: Seq<AStarNode>, c: Coord, p: Coord) -> bool {
    exists|j: int| 0 <= j < nodes.len() && (#[trigger] nodes[j]).coordinates == c && nodes[j].parent == Some(p)
}

/// Entry `i` is the first of the entries that no other entry precedes.
pub open spec fn is_first_min(frontier: Seq<AStarNode>, i: int) -> bool {
    &&& is_min(frontier, i)
    &&& forall|k: int| 0 <= k < i ==> precedes(frontier[i], #[trigger] frontier[k])
}

/// `nodes` records the coordinate `c`.
pub open spec fn has_node(nodes: Seq<AStarNode>, c: Coord) -> bool {
    exists|j: int| 0 <= j < nodes.len() && (#[trigger] nodes[j]).coordinates == c
}

/// Every record of `c` in `nodes` costs less than `g`.
pub open spec fn cost_below(nodes: Seq<AStarNode>, c: Coord, g: int) -> bool {
    forall|j: int| 0 <= j < nodes.len() && (#[trigger] nodes[j]).coordinates == c ==> nodes[j].g < g
}

/// Every record of `c` in `nodes` costs at most `g`.
pub open spec fn cost_at_most(nodes: Seq<AStarNode>, c: Coord, g: int) -> bool {
    forall|j: int| 0 <= j < nodes.len() && (#[trigger] nodes[j]).coordinates == c ==> nodes[j].g <= g
}

/// No coordinate is recorded twice.
pub open spec fn keys_unique(nodes: Seq<AStarNode>) -> bool {
    forall|i: int, j: int|
        0 <= i < nodes.len() && 0 <= j < nodes.len() && i != j ==> (#[trigger] nodes[i]).coordinates
            != (#[trigger] nodes[j]).coordinates
}

/// Node `i` is the start (cost 0, no parent), or its parent is a recorded,
/// adjacent and strictly cheaper node.
pub open spec fn linked(nodes: Seq<AStarNode>, i: int, start: Coord) -> bool {
    match nodes[i].parent {
        None => nodes[i].coordinates == start && nodes[i].g == 0,
        Some(p) => {
            &&& adjacent(p, nodes[i].coordinates)
            &&& has_node(nodes, p)
            &&& cost_below(nodes, p, nodes[i].g as int)
        },
    }
}

/// A frontier entry names a recorded coordinate, costs no less than its
/// record, and carries `h` = distance to the goal and `f = g + h`.
pub open spec fn entry_valid(nodes: Seq<AStarNode>, e: AStarNode, goal: Coord) -> bool {
    &&& has_node(nodes, e.coordinates)
    &&& cost_at_most(nodes, e.coordinates, e.g as int)
    &&& e.h == manhattan(e.coordinates, goal)
    &&& e.f == e.g + e.h
}

/// The invariant of a search: keys are unique, costs are non-negative, every
/// record carries `h` = distance to the goal and `f = g + h`, parents are
/// linked, and frontier entries are valid.
pub open spec fn search_inv(frontier: Seq<AStarNode>, nodes: Seq<AStarNode>, start: Coord, goal: Coord) -> bool {
    &&& keys_unique(nodes)
    &&& forall|i: int| 0 <= i < nodes.len() ==> 0 <= (#[trigger] nodes[i]).g
    &&& forall|i: int|
        0 <= i < nodes.len() ==> (#[trigger] nodes[i]).h == manhattan(nodes[i].coordinates, goal) && nodes[i].f == nodes[i].g
            + nodes[i].h
    &&& forall|i: int| 0 <= i < nodes.len() ==> #[trigger] linked(nodes, i, start)
    &&& forall|k: int| 0 <= k < frontier.len() ==> entry_valid(nodes, #[trigger] frontier[k], goal)
}

/// `after` keeps every record of `before` at its place, with a cost that
/// never went up; it may add records at the end.
pub open spec fn never_raised(before: Seq<AStarNode>, after: Seq<AStarNode>) -> bool {
    &&& before.len() <= after.len()
    &&& forall|i: int|
        0 <= i < before.len() ==> (#[trigger] after[i]).coordinates == before[i].coordinates
            && after[i].g <= before[i].g
}

/// Over any run of steps, a discovered coordinate keeps its place among the
/// records and its recorded cost never goes up: each step ensures this of
/// the records before and after it, and it carries over from step to step.
pub proof fn lemma_costs_never_rise(a: Seq<AStarNode>, b: Seq<AStarNode>, c: Seq<AStarNode>)
    requires
        never_raised(a, b),
        never_raised(b, c),
    ensures
        never_raised(a, c),
{
    assert forall|i: int| 0 <= i < a.len() implies (#[trigger] c[i]).coordinates == a[i].coordinates && c[i].g <= a[i].g by {
        assert(b[i].coordinates == a[i].coordinates);
    }
}

/// No discovered coordinate but the start lies on a wall of `cells`.
pub open spec fn clear_of_walls(nodes: Seq<AStarNode>, start: Coord, cells: Seq<Vec<Node>>) -> bool {
    forall|i: int| 0 <= i < nodes.len() ==> (#[trigger] nodes[i]).coordinates == start || !on_wall(cells, nodes[i].coordinates)
}

/// A walk from `start` to `goal` that steps on no wall after leaving `start`.
pub open spec fn clear_walk(cells: Seq<Vec<Node>>, path: Seq<Coord>, start: Coord, goal: Coord) -> bool {
    &&& walk_between(path, start, goal)
    &&& forall|k: int| 0 <= k < path.len() ==> #[trigger] path[k] == start || !on_wall(cells, path[k])
}

/// `side` splits the plane with `start` on one side and `goal` on the other,
/// and every step from the start side to the other side lands on a wall.
pub open spec fn walled_off(cells: Seq<Vec<Node>>, start: Coord, goal: Coord, side: spec_fn(Coord) -> bool) -> bool {
    &&& side(start)
    &&& !side(goal)
    &&& forall|a: Coord, b: Coord| #[trigger] adjacent(a, b) && side(a) && !side(b) ==> on_wall(cells, b)
}

/// When a complete wall separates `start` from `goal`, no walk between them
/// avoids the walls; since a search only reports a path that is such a walk,
/// it can never finish with one and ends in `Impossible`.
pub proof fn lemma_walled_off_has_no_clear_walk(
    cells: Seq<Vec<Node>>,
    start: Coord,
    goal: Coord,
    side: spec_fn(Coord) -> bool,
    path: Seq<Coord>,
)
    requires
        walled_off(cells, start, goal, side),
    ensures
        !clear_walk(cells, path, start, goal),
{
    if clear_walk(cells, path, start, goal) {
        lemma_walk_stays_on_side(cells, path, start, side, (path.len() - 1) as nat);
    }
}

proof fn lemma_walk_stays_on_side(cells: Seq<Vec<Node>>, path: Seq<Coord>, start: Coord, side: spec_fn(Coord) -> bool, k: nat)
    requires
        path.len() > 0,
        k < path.len(),
        path[0] == start,
        side(start),
        is_walk(path),
        forall|t: int| 0 <= t < path.len() ==> #[trigger] path[t] == start || !on_wall(cells, path[t]),
        forall|a: Coord, b: Coord| #[trigger] adjacent(a, b) && side(a) && !side(b) ==> on_wall(cells, b),
    ensures
        side(path[k as int]),
    decreases k,
{
    if k > 0 {
        lemma_walk_stays_on_side(cells, path, start, side, (k - 1) as nat);
        assert(adjacent(path[k - 1], path[k as int]));
    }
}

/// A walk from `start` to `goal` whose every cell other than the start is passable.
pub open spec fn open_route(cells: Seq<Vec<Node>>, walk: Seq<Coord>, start: Coord, goal: Coord) -> bool {
    &&& walk_between(walk, start, goal)
    &&& forall|k: int| 0 <= k < walk.len() ==> #[trigger] walk[k] == start || passable(cells, walk[k].0 as int, walk[k].1 as int)
}

/// The record `(c, v)` is still waiting in the frontier at that cost, or
/// `c` was already expanded at that cost.
pub open spec fn covered(frontier: Seq<AStarNode>, expanded: Set<(Coord, int)>, c: Coord, v: int) -> bool {
    (exists|k: int| 0 <= k < frontier.len() && (#[trigger] frontier[k]).coordinates == c && frontier[k].g == v)
        || expanded.contains((c, v))
}

/// Every passable neighbour of `c` is recorded at a cost of at most `w + 1`.
pub open spec fn relaxed_around(nodes: Seq<AStarNode>, cells: Seq<Vec<Node>>, c: Coord, w: int) -> bool {
    w < i32::MAX ==> forall|nb: Coord|
        #[trigger] adjacent(c, nb) && passable(cells, nb.0 as int, nb.1 as int) ==> has_node(nodes, nb)
            && cost_at_most(nodes, nb, w + 1)
}

/// The bookkeeping behind optimality: the start is recorded at cost 0; every
/// other record is a passable cell; every record is covered; every expansion
/// relaxed all passable neighbours of `cells`; the goal was never expanded.
pub open spec fn settled_on(
    frontier: Seq<AStarNode>,
    nodes: Seq<AStarNode>,
    expanded: Set<(Coord, int)>,
    start: Coord,
    goal: Coord,
    cells: Seq<Vec<Node>>,
) -> bool {
    &&& has_node(nodes, start)
    &&& cost_at_most(nodes, start, 0)
    &&& forall|i: int|
        0 <= i < nodes.len() ==> (#[trigger] nodes[i]).coordinates == start || passable(
            cells,
            nodes[i].coordinates.0 as int,
            nodes[i].coordinates.1 as int,
        )
    &&& forall|i: int| 0 <= i < nodes.len() ==> covered(frontier, expanded, (#[trigger] nodes[i]).coordinates, nodes[i].g as int)
    &&& forall|p: (Coord, int)| #[trigger] expanded.contains(p) ==> p.1 >= 0 && relaxed_around(nodes, cells, p.0, p.1)
    &&& forall|w: int| !expanded.contains((goal, w))
}

/// The Manhattan distance between two cells of a walk is at most the number
/// of steps between them.
proof fn lemma_manhattan_along_walk(walk: Seq<Coord>, j: int)
    requires
        is_walk(walk),
        0 <= j < walk.len(),
    ensures
        manhattan(walk[j], walk.last()) <= walk.len() - 1 - j,
    decreases walk.len() - j,
{
    if j < walk.len() - 1 {
        lemma_manhattan_along_walk(walk, j + 1);
        assert(adjacent(walk[j], walk[j + 1]));
    }
}

/// `c` was expanded at a cost of at most `i`.
pub open spec fn expanded_within(expanded: Set<(Coord, int)>, c: Coord, i: int) -> bool {
    exists|w: int| w <= i && #[trigger] expanded.contains((c, w))
}

/// On a settled search, some frontier entry has `f` at most the length of any
/// open route: walking the route from its start, the first cell not yet
/// expanded at a cost within its position is waiting in the frontier.
proof fn lemma_frontier_bound(
    frontier: Seq<AStarNode>,
    nodes: Seq<AStarNode>,
    expanded: Set<(Coord, int)>,
    start: Coord,
    goal: Coord,
    cells: Seq<Vec<Node>>,
    walk: Seq<Coord>,
    j: int,
)
    requires
        search_inv(frontier, nodes, start, goal),
        settled_on(frontier, nodes, expanded, start, goal, cells),
        open_route(cells, walk, start, goal),
        walk.len() - 1 < i32::MAX,
        0 <= j < walk.len(),
        forall|i: int| 0 <= i < j ==> #[trigger] expanded_within(expanded, walk[i], i),
    ensures
        exists|k: int| 0 <= k < frontier.len() && (#[trigger] frontier[k]).f <= walk.len() - 1,
    decreases walk.len() - j,
{
    let n = walk.len() - 1;
    if expanded_within(expanded, walk[j], j) {
        let w = choose|w: int| w <= j && #[trigger] expanded.contains((walk[j], w));
        assert(j != n);
        lemma_frontier_bound(frontier, nodes, expanded, start, goal, cells, walk, j + 1);
    } else {
        lemma_manhattan_along_walk(walk, j);
        let c = walk[j];
        let bound: int = if j == 0 || c == start {
            0
        } else {
            assert(expanded_within(expanded, walk[j - 1], j - 1));
            let w = choose|w: int| w <= j - 1 && #[trigger] expanded.contains((walk[j - 1], w));
            assert(relaxed_around(nodes, cells, walk[j - 1], w));
            assert(adjacent(walk[j - 1], walk[j]));
            w + 1
        };
        assert(has_node(nodes, c) && cost_at_most(nodes, c, bound));
        let i = choose|i: int| 0 <= i < nodes.len() && (#[trigger] nodes[i]).coordinates == c;
        let v = nodes[i].g as int;
        assert(v <= bound && bound <= j);
        assert(covered(frontier, expanded, c, v));
        assert(!expanded.contains((c, v)));
        let k = choose|k: int| 0 <= k < frontier.len() && (#[trigger] frontier[k]).coordinates == c && frontier[k].g == v;
        assert(entry_valid(nodes, frontier[k], goal));
        assert(frontier[k].f <= n);
    }
}

proof fn lemma_relaxed_after_paint(
    nodes: Seq<AStarNode>,
    start: Coord,
    before: Seq<Vec<Node>>,
    after: Seq<Vec<Node>>,
    x: int,
    y: int,
    c: Coord,
    w: int,
)
    requires
        painted(before, after, x, y, NodeType::Visited),
        relaxed_around(nodes, before, c, w),
        w >= 0,
        has_node(nodes, start),
        cost_at_most(nodes, start, 0),
        !(in_bounds(before, x, y) && cell(before, x, y) == NodeType::Wall) || (x == start.0 && y == start.1),
    ensures
        relaxed_around(nodes, after, c, w),
{
    if w < i32::MAX {
        assert forall|nb: Coord| #[trigger] adjacent(c, nb) && passable(after, nb.0 as int, nb.1 as int) implies has_node(nodes, nb)
            && cost_at_most(nodes, nb, w + 1) by {
            assert(in_bounds(before, nb.0 as int, nb.1 as int));
            if !passable(before, nb.0 as int, nb.1 as int) {
                assert(nb.0 == x && nb.1 == y);
                assert(nb == start);
            }
        }
    }
}

proof fn lemma_neighbor_listed(cells: Seq<Vec<Node>>, c: Coord, nb: Coord)
    requires
        adjacent(c, nb),
        passable(cells, nb.0 as int, nb.1 as int),
    ensures
        exists|t: int| 0 <= t < neighbors_of(cells, c).len() && #[trigger] neighbors_of(cells, c)[t] == nb,
{
    let x = c.0 as int;
    let y = c.1 as int;
    let s0: Seq<Coord> = if passable(cells, x, y - 1) {
        seq![(c.0, (y - 1) as i32)]
    } else {
        seq![]
    };
    let s1 = if passable(cells, x, y + 1) {
        s0.push((c.0, (y + 1) as i32))
    } else {
        s0
    };
    let s2 = if passable(cells, x - 1, y) {
        s1.push(((x - 1) as i32, c.1))
    } else {
        s1
    };
    let s3 = if passable(cells, x + 1, y) {
        s2.push(((x + 1) as i32, c.1))
    } else {
        s2
    };
    assert(s3 == neighbors_of(cells, c));
    if nb.0 == c.0 && nb.1 == y - 1 {
        assert(nb == (c.0, (y - 1) as i32));
        assert(s0[0] == nb && s1[0] == nb && s2[0] == nb && s3[0] == nb);
    } else if nb.0 == c.0 && nb.1 == y + 1 {
        assert(nb == (c.0, (y + 1) as i32));
        let t = s0.len() as int;
        assert(s1[t] == nb && s2[t] == nb && s3[t] == nb);
    } else if nb.0 == x - 1 && nb.1 == c.1 {
        assert(nb == ((x - 1) as i32, c.1));
        let t = s1.len() as int;
        assert(s2[t] == nb && s3[t] == nb);
    } else {
        assert(nb == ((x + 1) as i32, c.1));
        let t = s2.len() as int;
        assert(s3[t] == nb);
    }
}

/// The frontier entry a step from `curr` pushes for the neighbour `nb`.
pub open spec fn relaxed_entry(curr: AStarNode, nb: Coord, goal: Coord) -> AStarNode {
    AStarNode {
        coordinates: nb,
        g: (curr.g + 1) as i32,
        h: manhattan(nb, goal) as i64,
        f: (curr.g + 1 + manhattan(nb, goal)) as i64,
        parent: Some(curr.coordinates),
    }
}

/// A cost of `t` improves on what `nodes` records for `c`: nothing, or more.
pub open spec fn improves(nodes: Seq<AStarNode>, c: Coord, t: int) -> bool {
    !has_node(nodes, c) || !cost_at_most(nodes, c, t)
}

/// The entries a step from `curr` pushes, in order, for the neighbours
/// `nbs`: one for each neighbour whose recorded cost the step improves.
pub open spec fn pushes(nodes: Seq<AStarNode>, curr: AStarNode, nbs: Seq<Coord>, goal: Coord) -> Seq<AStarNode>
    decreases nbs.len(),
{
    if nbs.len() == 0 {
        seq![]
    } else {
        let earlier = pushes(nodes, curr, nbs.drop_last(), goal);
        if curr.g < i32::MAX && improves(nodes, nbs.last(), curr.g + 1) {
            earlier.push(relaxed_entry(curr, nbs.last(), goal))
        } else {
            earlier
        }
    }
}

proof fn lemma_neighbors_distinct(cells: Seq<Vec<Node>>, c: Coord)
    ensures
        forall|a: int, b: int|
            0 <= a < b < neighbors_of(cells, c).len() ==> #[trigger] neighbors_of(cells, c)[a] != #[trigger] neighbors_of(cells, c)[b],
{
    let x = c.0 as int;
    let y = c.1 as int;
    let s0: Seq<Coord> = if passable(cells, x, y - 1) {
        seq![(c.0, (y - 1) as i32)]
    } else {
        seq![]
    };
    let s1 = if passable(cells, x, y + 1) {
        s0.push((c.0, (y + 1) as i32))
    } else {
        s0
    };
    let s2 = if passable(cells, x - 1, y) {
        s1.push(((x - 1) as i32, c.1))
    } else {
        s1
    };
    let s3 = if passable(cells, x + 1, y) {
        s2.push(((x + 1) as i32, c.1))
    } else {
        s2
    };
    assert(s3 == neighbors_of(cells, c));
    assert forall|k: int| 0 <= k < s0.len() implies (#[trigger] s0[k]).1 == y - 1 && s0[k].0 == c.0 by {}
    assert forall|k: int| 0 <= k < s1.len() implies ((#[trigger] s1[k]).0 == c.0 && (s1[k].1 == y - 1 || s1[k].1 == y + 1))
        && (s1[k].1 == y + 1 ==> k == s1.len() - 1) by {
        if k < s0.len() {
            assert(s1[k] == s0[k]);
        }
    }
    assert forall|k: int| 0 <= k < s2.len() implies (k < s1.len() ==> #[trigger] s2[k] == s1[k]) && (k >= s1.len() ==> s2[k] == ((x - 1) as i32, c.1)) by {}
    assert forall|k: int| 0 <= k < s3.len() implies (k < s2.len() ==> #[trigger] s3[k] == s2[k]) && (k >= s2.len() ==> s3[k] == ((x + 1) as i32, c.1)) by {}
    assert forall|a: int, b: int| 0 <= a < b < s3.len() implies #[trigger] s3[a] != #[trigger] s3[b] by {
        if b < s1.len() {
            assert(s3[a] == s1[a] && s3[b] == s1[b]);
            assert(s1[b].1 == y + 1);
        } else if a < s1.len() {
            assert(s3[a] == s1[a]);
        } else if b < s2.len() {
        } else {
            assert(a < s2.len());
        }
    }
}

/// Records appended past the end of `before` name coordinates that `before` lacked.
pub open spec fn appended_fresh(before: Seq<AStarNode>, after: Seq<AStarNode>) -> bool {
    forall|j: int| before.len() <= j < after.len() ==> !has_node(before, (#[trigger] after[j]).coordinates)
}

proof fn lemma_has_node_kept(before: Seq<AStarNode>, after: Seq<AStarNode>)
    requires
        never_raised(before, after),
    ensures
        forall|c: Coord| has_node(before, c) ==> #[trigger] has_node(after, c),
{
    assert forall|c: Coord| has_node(before, c) implies #[trigger] has_node(after, c) by {
        let j = choose|j: int| 0 <= j < before.len() && (#[trigger] before[j]).coordinates == c;
        assert(after[j].coordinates == c);
    }
}

proof fn lemma_cost_kept(before: Seq<AStarNode>, after: Seq<AStarNode>, c: Coord, g: int)
    requires
        never_raised(before, after),
        appended_fresh(before, after),
        has_node(before, c),
        cost_at_most(before, c, g),
    ensures
        cost_at_most(after, c, g),
{
    assert forall|j: int| 0 <= j < after.len() && (#[trigger] after[j]).coordinates == c implies after[j].g <= g by {
        if j < before.len() {
            assert(before[j].coordinates == c);
        }
    }
}

proof fn lemma_neighbors_adjacent(cells: Seq<Vec<Node>>, c: Coord)
    ensures
        forall|k: int| 0 <= k < neighbors_of(cells, c).len() ==> adjacent(c, #[trigger] neighbors_of(cells, c)[k]),
        forall|k: int| 0 <= k < neighbors_of(cells, c).len() ==> !on_wall(cells, #[trigger] neighbors_of(cells, c)[k]),
        forall|k: int|
            0 <= k < neighbors_of(cells, c).len() ==> passable(
                cells,
                (#[trigger] neighbors_of(cells, c)[k]).0 as int,
                neighbors_of(cells, c)[k].1 as int,
            ),
{
}

proof fn lemma_clear_after_paint(
    nodes: Seq<AStarNode>,
    start: Coord,
    before: Seq<Vec<Node>>,
    after: Seq<Vec<Node>>,
    x: int,
    y: int,
    t: NodeType,
)
    requires
        painted(before, after, x, y, t),
        t != NodeType::Wall,
        clear_of_walls(nodes, start, before),
    ensures
        clear_of_walls(nodes, start, after),
{
    assert forall|i: int| 0 <= i < nodes.len() implies (#[trigger] nodes[i]).coordinates == start || !on_wall(after, nodes[i].coordinates) by {
        let c = nodes[i].coordinates;
        if in_bounds(after, c.0 as int, c.1 as int) {
            assert(in_bounds(before, c.0 as int, c.1 as int));
        }
    }
}

/// What one step did when it took entry `i` off the frontier of `before`.
pub open spec fn expanded(
    before: AStar,
    after: AStar,
    i: int,
    cells_before: Seq<Vec<Node>>,
    cells_after: Seq<Vec<Node>>,
    r: AlgorithmResult,
) -> bool {
    let e = before.frontier()[i];
    let rest = before.frontier().remove(i);
    if e.coordinates == before.goal() {
        &&& r is Done
        &&& cells_after == cells_before
        &&& after.frontier() == rest
        &&& after.discovered() == before.discovered()
    } else {
        &&& r is ModifiedGrid
        &&& painted(cells_before, cells_after, e.coordinates.0 as int, e.coordinates.1 as int, NodeType::Visited)
        &&& after.frontier() == rest + pushes(before.discovered(), e, neighbors_of(cells_after, e.coordinates), before.goal())
        &&& e.g < i32::MAX ==> forall|k: int|
            0 <= k < neighbors_of(cells_after, e.coordinates).len() ==> {
                let nb = #[trigger] neighbors_of(cells_after, e.coordinates)[k];
                has_node(after.discovered(), nb) && cost_at_most(after.discovered(), nb, e.g + 1)
            }
    }
}

/// One search step: what `step` does to the search and the cells.
pub open spec fn search_stepped(
    before: AStar,
    after: AStar,
    cells_before: Seq<Vec<Node>>,
    cells_after: Seq<Vec<Node>>,
    r: AlgorithmResult,
) -> bool {
    &&& (after.start() == before.start())
    &&& (after.goal() == before.goal())
    &&& (never_raised(before.discovered(), after.discovered()))
    &&& (before.frontier().len() == 0 ==> {
        &&& r is Impossible
        &&& cells_after == cells_before
        &&& after.frontier() == before.frontier()
        &&& after.discovered() == before.discovered()
    })
    &&& (before.frontier().len() > 0 ==> exists|i: int|
        #[trigger] is_first_min(before.frontier(), i) && expanded(before, after, i, cells_before, cells_after, r))
    &&& (r is Done ==> r->Done_0 is Some && clear_walk(cells_before, r->Done_0->Some_0@, before.start(), before.goal()))
    &&& (before.settled(cells_before) && r is ModifiedGrid ==> after.settled(cells_after))
    &&& (before.settled(cells_before) && r is Done ==> open_route(cells_before, r->Done_0->Some_0@, before.start(), before.goal()))
    &&& (before.settled(cells_before) && r is Done ==> forall|walk: Seq<Coord>|
        #[trigger] open_route(cells_before, walk, before.start(), before.goal()) && walk.len() - 1 < i32::MAX
        ==> r->Done_0->Some_0@.len() <= walk.len())
}

/// `a` was just seeded: it searches from `start` towards `end`, and its
/// frontier and records hold the start alone, at cost 0, with no parent.
pub open spec fn seeded(a: AStar, start: Coord, end: Coord) -> bool {
    &&& a.start() == start
    &&& a.goal() == end
    &&& a.discovered().len() == 1
    &&& a.frontier() == a.discovered()
    &&& a.discovered()[0].coordinates == start
    &&& a.discovered()[0].g == 0
    &&& a.discovered()[0].h == manhattan(start, end)
    &&& a.discovered()[0].f == manhattan(start, end)
    &&& a.discovered()[0].parent is None
}

/// A* search over the grid with unit step costs and the Manhattan heuristic.
pub struct AStar {
    open_set: Vec<AStarNode>,
    nodes: Vec<AStarNode>,
    start_coordinates: Coord,
    end_coordinates: Coord,
    /// The coordinates expanded so far, each with the cost it was expanded at.
    expanded: Ghost<Set<(Coord, int)>>,
}

impl AStar {
    /// The frontier, stale entries included.
    pub closed spec fn frontier(&self) -> Seq<AStarNode> {
        self.open_set@
    }

    /// The best known node of each discovered coordinate.
    pub closed spec fn discovered(&self) -> Seq<AStarNode> {
        self.nodes@
    }

    pub closed spec fn start(&self) -> Coord {
        self.start_coordinates
    }

    pub closed spec fn goal(&self) -> Coord {
        self.end_coordinates
    }

    pub closed spec fn expanded_set(&self) -> Set<(Coord, int)> {
        self.expanded@
    }

    /// The search's bookkeeping agrees with `cells`; then a path it returns is a shortest one.
    pub open spec fn settled(&self, cells: Seq<Vec<Node>>) -> bool {
        settled_on(self.frontier(), self.discovered(), self.expanded_set(), self.start(), self.goal(), cells)
    }

    pub open spec fn inv(&self) -> bool {
        search_inv(self.frontier(), self.discovered(), self.start(), self.goal())
    }

    /// An empty search: stepping it reports `Impossible` until `init` seeds it.
    pub fn new() -> (r: Self)
        ensures
            r.inv(),
            r.frontier().len() == 0,
            r.discovered().len() == 0,
            r.start() == (0i32, 0i32),
            r.goal() == (0i32, 0i32),
    {
        Self {
            open_set: Vec::new(),
            nodes: Vec::new(),
            start_coordinates: (0, 0),
            end_coordinates: (0, 0),
            expanded: Ghost(Set::empty()),
        }
    }

    /// The goal of the search.
    pub fn end_coordinates(&self) -> (r: Coord)
        ensures
            r == self.goal(),
    {
        self.end_coordinates
    }

    /// Resets the search and seeds it with `start` at cost 0, aiming at `end`.
    pub fn init(&mut self, start: Coord, end: Coord)
        ensures
            final(self).inv(),
            seeded(*final(self), start, end),
            forall|cells: Seq<Vec<Node>>| #[trigger] final(self).settled(cells),
    {
        let man_dist = Self::manhattan_distance(start, end) as i64;
        let start_node = AStarNode { coordinates: start, g: 0, h: man_dist, f: man_dist, parent: None };
        self.start_coordinates = start;
        self.end_coordinates = end;
        self.open_set = Vec::new();
        self.nodes = Vec::new();
        self.open_set.push(start_node);
        self.nodes.push(start_node);
        self.expanded = Ghost(Set::empty());
        proof {
            assert(self.nodes@[0] == start_node);
            assert(has_node(self.nodes@, start));
            assert(self.open_set@[0] == start_node);
            assert(covered(self.open_set@, self.expanded@, start, 0));
        }
    }

    /// Follows the parent links from the goal back to the start.
    #[verifier::rlimit(30)]
    fn reconstruct_path(&self) -> (path: Vec<Coord>)
        requires
            self.inv(),
            has_node(self.discovered(), self.goal()),
        ensures
            walk_between(path@, self.start(), self.goal()),
            forall|k: int| 0 <= k < path@.len() ==> has_node(self.discovered(), #[trigger] path@[k]),
            forall|j: int|
                0 <= j < self.discovered().len() && (#[trigger] self.discovered()[j]).coordinates == self.goal() ==> path@.len()
                    <= self.discovered()[j].g + 1,
            forall|i: int| 1 <= i < path@.len() ==> parent_link(self.discovered(), #[trigger] path@[i], path@[i - 1]),
            !(exists|j: int| 0 <= j < self.discovered().len() && (#[trigger] self.discovered()[j]).coordinates == path@[0]
                && self.discovered()[j].parent is Some),
    {
        let ghost n = self.nodes@;
        let mut rev: Vec<Coord> = Vec::new();
        let mut current: Coord = self.end_coordinates;
        let mut idx: usize = match Self::find_node(&self.nodes, current) {
            Some(i) => i,
            None => {
                proof {
                    assert(false);
                }
                0
            },
        };
        let ghost top = n[idx as int].g as int;
        let ghost top_index = idx;
        let ghost mut last_index: int = 0;
        loop
            invariant_except_break
                idx < n.len(),
                rev@.len() + n[idx as int].g <= top,
                n[idx as int].coordinates == current,
                rev@.len() == 0 ==> current == self.end_coordinates,
                rev@.len() > 0 ==> adjacent(current, rev@.last()),
                rev@.len() > 0 ==> parent_link(n, rev@.last(), current),
            invariant
                forall|t: int| 0 <= t < rev@.len() - 1 ==> parent_link(n, #[trigger] rev@[t], rev@[t + 1]),
                n == self.nodes@,
                self.inv(),
                rev@.len() > 0 ==> rev@[0] == self.end_coordinates,
                is_walk(rev@),
                forall|k: int| 0 <= k < rev@.len() ==> has_node(n, #[trigger] rev@[k]),
            ensures
                rev@.len() > 0,
                rev@[0] == self.end_coordinates,
                rev@.last() == self.start_coordinates,
                rev@.len() <= top + 1,
                n[last_index].coordinates == rev@.last(),
                n[last_index].parent is None,
                0 <= last_index < n.len(),
            decreases n[idx as int].g,
        {
            proof {
                assert(linked(n, idx as int, self.start_coordinates));
                assert(0 <= n[idx as int].g);
            }
            let ghost before = rev@;
            rev.push(current);
            proof {
                assert(has_node(n, current));
                assert forall|k: int| 0 <= k < rev@.len() - 1 implies adjacent(#[trigger] rev@[k], rev@[k + 1]) by {
                    if k < before.len() - 1 {
                        assert(rev@[k] == before[k] && rev@[k + 1] == before[k + 1]);
                    }
                }
                assert forall|k: int| 0 <= k < rev@.len() implies has_node(n, #[trigger] rev@[k]) by {
                    if k < before.len() {
                        assert(rev@[k] == before[k]);
                    }
                }
                assert forall|t: int| 0 <= t < rev@.len() - 1 implies parent_link(n, #[trigger] rev@[t], rev@[t + 1]) by {
                    if t < before.len() - 1 {
                        assert(rev@[t] == before[t] && rev@[t + 1] == before[t + 1]);
                    } else {
                        assert(rev@[t] == before.last());
                    }
                }
            }
            match self.nodes[idx].parent {
                None => {
                    proof {
                        last_index = idx as int;
                    }
                    break;
                },
                Some(p) => {
                    let j = match Self::find_node(&self.nodes, p) {
                        Some(j) => j,
                        None => {
                            proof {
                                assert(false);
                            }
                            0
                        },
                    };
                    proof {
                        assert(n[j as int].g < n[idx as int].g);
                        assert(rev@.last() == current);
                        assert(parent_link(n, current, p));
                    }
                    current = p;
                    idx = j;
                },
            }
        }
        let mut path: Vec<Coord> = Vec::new();
        let mut k: usize = rev.len();
        while k > 0
            invariant
                k <= rev@.len(),
                path@.len() == rev@.len() - k,
                forall|t: int| 0 <= t < path@.len() ==> #[trigger] path@[t] == rev@[rev@.len() - 1 - t],
            decreases k,
        {
            k = k - 1;
            path.push(rev[k]);
        }
        proof {
            let len = rev@.len() as int;
            assert forall|t: int| 0 <= t < path@.len() - 1 implies adjacent(#[trigger] path@[t], path@[t + 1]) by {
                assert(path@[t] == rev@[len - 1 - t]);
                assert(path@[t + 1] == rev@[len - 2 - t]);
                assert(adjacent(rev@[len - 2 - t], rev@[len - 1 - t]));
            }
            assert forall|t: int| 0 <= t < path@.len() implies has_node(self.discovered(), #[trigger] path@[t]) by {
                assert(path@[t] == rev@[len - 1 - t]);
            }
            assert(path@[0] == rev@[len - 1]);
            assert(path@[len - 1] == rev@[0]);
            assert(n[top_index as int].coordinates == self.end_coordinates);
            assert forall|t: int| 1 <= t < path@.len() implies parent_link(n, #[trigger] path@[t], path@[t - 1]) by {
                assert(path@[t] == rev@[len - 1 - t]);
                assert(path@[t - 1] == rev@[len - t]);
                assert(parent_link(n, rev@[len - 1 - t], rev@[len - 1 - t + 1]));
            }
            assert(path@[0] == rev@.last());
            if exists|j: int| 0 <= j < n.len() && (#[trigger] n[j]).coordinates == path@[0] && n[j].parent is Some {
                let j = choose|j: int| 0 <= j < n.len() && (#[trigger] n[j]).coordinates == path@[0] && n[j].parent is Some;
                assert(j == last_index);
            }
        }
        path
    }

    /// Offers `nb` the cost of reaching it from `curr` in one more step; on
    /// an improvement its record is updated and a copy goes to the frontier.
    fn relax(&mut self, curr: &AStarNode, nb: Coord)
        requires
            old(self).inv(),
            has_node(old(self).discovered(), curr.coordinates),
            cost_at_most(old(self).discovered(), curr.coordinates, curr.g as int),
            adjacent(curr.coordinates, nb),
        ensures
            final(self).inv(),
            final(self).start() == old(self).start(),
            final(self).goal() == old(self).goal(),
            never_raised(old(self).discovered(), final(self).discovered()),
            appended_fresh(old(self).discovered(), final(self).discovered()),
            forall|j: int|
                old(self).discovered().len() <= j < final(self).discovered().len() ==> (#[trigger] final(self).discovered()[j]).coordinates == nb,
            old(self).frontier().len() <= final(self).frontier().len(),
            final(self).frontier().subrange(0, old(self).frontier().len() as int) == old(self).frontier(),
            curr.g < i32::MAX ==> has_node(final(self).discovered(), nb),
            curr.g < i32::MAX ==> cost_at_most(final(self).discovered(), nb, curr.g + 1),
            final(self).expanded_set() == old(self).expanded_set(),
            (if curr.g < i32::MAX && improves(old(self).discovered(), nb, curr.g + 1) {
                final(self).frontier() == old(self).frontier().push(relaxed_entry(*curr, nb, old(self).goal()))
            } else {
                final(self).frontier() == old(self).frontier()
            }),
            forall|j: int|
                0 <= j < old(self).discovered().len() && (#[trigger] old(self).discovered()[j]).coordinates != nb
                    ==> final(self).discovered()[j] == old(self).discovered()[j],
            forall|j: int|
                0 <= j < final(self).discovered().len() ==> (j < old(self).discovered().len() && #[trigger] final(self).discovered()[j]
                    == old(self).discovered()[j]) || (old(self).frontier().len() < final(self).frontier().len()
                    && final(self).frontier().last().coordinates == final(self).discovered()[j].coordinates
                    && final(self).frontier().last().g == final(self).discovered()[j].g),
    {
        let ghost n0 = self.nodes@;
        let ghost f0 = self.open_set@;
        if curr.g < i32::MAX {
            let tentative: i32 = curr.g + 1;
            let h = Self::manhattan_distance(nb, self.end_coordinates) as i64;
            let updated = AStarNode {
                coordinates: nb,
                g: tentative,
                h,
                f: tentative as i64 + h,
                parent: Some(curr.coordinates),
            };
            proof {
                assert(0 <= curr.g) by {
                    let j = choose|j: int| 0 <= j < n0.len() && (#[trigger] n0[j]).coordinates == curr.coordinates;
                }
            }
            match Self::find_node(&self.nodes, nb) {
                Some(i) => {
                    if tentative < self.nodes[i].g {
                        self.nodes.set(i, updated);
                        self.open_set.push(updated);
                        proof {
                            let n1 = self.nodes@;
                            assert(never_raised(n0, n1));
                            lemma_has_node_kept(n0, n1);
                            assert(n1[i as int] == updated);
                            assert(has_node(n1, nb));
                            assert forall|a: int| 0 <= a < n1.len() implies #[trigger] linked(n1, a, self.start_coordinates) by {
                                assert(linked(n0, a, self.start_coordinates));
                                if a != i {
                                    match n1[a].parent {
                                        None => {},
                                        Some(p) => {
                                            assert forall|j: int| 0 <= j < n1.len() && (#[trigger] n1[j]).coordinates == p implies n1[j].g < n1[a].g by {
                                                assert(n0[j].coordinates == p);
                                            }
                                        },
                                    }
                                } else {
                                    assert forall|j: int| 0 <= j < n1.len() && (#[trigger] n1[j]).coordinates == curr.coordinates implies n1[j].g < n1[a].g by {
                                        assert(n0[j].coordinates == curr.coordinates);
                                    }
                                }
                            }
                            assert forall|k: int| 0 <= k < self.open_set@.len() implies entry_valid(n1, #[trigger] self.open_set@[k], self.end_coordinates) by {
                                if k < f0.len() {
                                    assert(self.open_set@[k] == f0[k]);
                                    assert(entry_valid(n0, f0[k], self.end_coordinates));
                                    lemma_cost_kept(n0, n1, f0[k].coordinates, f0[k].g as int);
                                } else {
                                    assert(self.open_set@[k] == updated);
                                    assert forall|j: int| 0 <= j < n1.len() && (#[trigger] n1[j]).coordinates == nb implies n1[j].g <= tentative by {
                                        assert(j == i);
                                    }
                                }
                            }
                            assert(self.open_set@.subrange(0, f0.len() as int) =~= f0);
                            lemma_cost_kept(n0, n1, curr.coordinates, curr.g as int);
                        }
                    } else {
                        proof {
                            assert(self.open_set@.subrange(0, f0.len() as int) =~= f0);
                            assert(has_node(n0, nb));
                        }
                    }
                },
                None => {
                    self.nodes.push(updated);
                    self.open_set.push(updated);
                    proof {
                        let n1 = self.nodes@;
                        assert(never_raised(n0, n1));
                        assert(appended_fresh(n0, n1));
                        lemma_has_node_kept(n0, n1);
                        assert(n1[n0.len() as int] == updated);
                        assert(has_node(n1, nb));
                        assert forall|a: int| 0 <= a < n1.len() implies #[trigger] linked(n1, a, self.start_coordinates) by {
                            if a < n0.len() {
                                assert(linked(n0, a, self.start_coordinates));
                                match n1[a].parent {
                                    None => {},
                                    Some(p) => {
                                        lemma_cost_kept(n0, n1, p, n0[a].g - 1);
                                    },
                                }
                            } else {
                                lemma_cost_kept(n0, n1, curr.coordinates, curr.g as int);
                            }
                        }
                        assert forall|k: int| 0 <= k < self.open_set@.len() implies entry_valid(n1, #[trigger] self.open_set@[k], self.end_coordinates) by {
                            if k < f0.len() {
                                assert(self.open_set@[k] == f0[k]);
                                assert(entry_valid(n0, f0[k], self.end_coordinates));
                                lemma_cost_kept(n0, n1, f0[k].coordinates, f0[k].g as int);
                            } else {
                                assert(self.open_set@[k] == updated);
                                assert forall|j: int| 0 <= j < n1.len() && (#[trigger] n1[j]).coordinates == nb implies n1[j].g <= tentative by {
                                    if j < n0.len() {
                                        assert(has_node(n0, nb));
                                    }
                                }
                            }
                        }
                        assert(self.open_set@.subrange(0, f0.len() as int) =~= f0);
                        lemma_cost_kept(n0, n1, curr.coordinates, curr.g as int);
                        assert forall|j: int| 0 <= j < n1.len() && (#[trigger] n1[j]).coordinates == nb implies n1[j].g <= curr.g + 1 by {
                            if j < n0.len() {
                                assert(has_node(n0, nb));
                            }
                        }
                    }
                },
            }
        } else {
            proof {
                assert(self.open_set@.subrange(0, f0.len() as int) =~= f0);
            }
        }
    }

    /// Expands the first of the best frontier entries: on the goal the path
    /// is rebuilt and returned; otherwise its cell is marked visited and its
    /// passable neighbours are relaxed, each neighbour whose recorded cost
    /// improves getting one new frontier entry. An empty frontier means no
    /// path exists.
    ///
    /// A returned path runs from the start to the goal in unit steps and
    /// steps on no wall. Recorded costs never rise. On a settled search
    /// (`init` leaves one settled on any cells, and each step that does not
    /// finish keeps it settled on the cells it leaves) a returned path is an
    /// open route and no route is shorter.
    pub fn step(&mut self, grid: &mut Vec<Vec<Node>>) -> (r: AlgorithmResult)
        requires
            old(self).inv(),
            clear_of_walls(old(self).discovered(), old(self).start(), old(grid)@),
        ensures
            final(self).inv(),
            clear_of_walls(final(self).discovered(), final(self).start(), final(grid)@),
            search_stepped(*old(self), *final(self), old(grid)@, final(grid)@, r),
    {
        if self.open_set.len() == 0 {
            return AlgorithmResult::Impossible;
        }
        let ghost before = *self;
        let ghost cells0 = grid@;
        let i = Self::min_index(&self.open_set);
        let curr = self.open_set.remove(i);
        proof {
            assert(before.frontier()[i as int] == curr);
            assert(entry_valid(self.nodes@, curr, self.end_coordinates));
            assert forall|k: int| 0 <= k < self.open_set@.len() implies entry_valid(self.nodes@, #[trigger] self.open_set@[k], self.end_coordinates) by {
                if k < i {
                    assert(self.open_set@[k] == before.open_set@[k]);
                } else {
                    assert(self.open_set@[k] == before.open_set@[k + 1]);
                }
            }
        }
        if curr.coordinates.0 == self.end_coordinates.0 && curr.coordinates.1 == self.end_coordinates.1 {
            let path = self.reconstruct_path();
            proof {
                assert forall|k: int| 0 <= k < path@.len() implies #[trigger] path@[k] == self.start_coordinates || !on_wall(grid@, path@[k]) by {
                    assert(has_node(self.nodes@, path@[k]));
                    let j = choose|j: int| 0 <= j < self.nodes@.len() && (#[trigger] self.nodes@[j]).coordinates == path@[k];
                }
                if before.settled(cells0) {
                    let fr = before.open_set@;
                    let nodes = before.nodes@;
                    assert forall|k: int| 0 <= k < path@.len() implies #[trigger] path@[k] == self.start_coordinates || passable(
                        cells0,
                        path@[k].0 as int,
                        path@[k].1 as int,
                    ) by {
                        assert(has_node(nodes, path@[k]));
                        let j = choose|j: int| 0 <= j < nodes.len() && (#[trigger] nodes[j]).coordinates == path@[k];
                    }
                    assert forall|walk: Seq<Coord>|
                        #[trigger] open_route(cells0, walk, before.start_coordinates, before.end_coordinates) && walk.len() - 1 < i32::MAX
                        implies path@.len() <= walk.len() by {
                        lemma_frontier_bound(fr, nodes, before.expanded@, before.start_coordinates, before.end_coordinates, cells0, walk, 0);
                        let k = choose|k: int| 0 <= k < fr.len() && (#[trigger] fr[k]).f <= walk.len() - 1;
                        assert(!precedes(fr[k], fr[i as int]));
                        assert(curr.h == 0);
                        let jg = choose|j: int| 0 <= j < nodes.len() && (#[trigger] nodes[j]).coordinates == curr.coordinates;
                        assert(nodes[jg].g <= curr.g);
                        assert(path@.len() <= nodes[jg].g + 1);
                    }
                }
            }
            return AlgorithmResult::Done(Some(path));
        }
        let ghost cells_before = grid@;
        paint(grid, curr.coordinates.0, curr.coordinates.1, NodeType::Visited);
        let neighbors = self.get_neighbors(grid, &curr);
        let ghost rest = self.open_set@;
        let ghost settled0 = before.settled(cells0);
        let ghost ex0 = self.expanded@;
        self.expanded = Ghost(self.expanded@.insert((curr.coordinates, curr.g as int)));
        proof {
            lemma_neighbors_adjacent(grid@, curr.coordinates);
            lemma_neighbors_distinct(grid@, curr.coordinates);
            assert(neighbors@.subrange(0, 0) =~= Seq::<Coord>::empty());
            assert(rest + Seq::<AStarNode>::empty() =~= rest);
            lemma_clear_after_paint(self.nodes@, self.start_coordinates, cells_before, grid@, curr.coordinates.0 as int, curr.coordinates.1 as int, NodeType::Visited);
            if settled0 {
                let nodes = self.nodes@;
                let fr = before.open_set@;
                assert forall|j: int| 0 <= j < nodes.len() implies covered(self.open_set@, self.expanded@, (#[trigger] nodes[j]).coordinates, nodes[j].g as int) by {
                    assert(covered(fr, ex0, nodes[j].coordinates, nodes[j].g as int));
                    if !ex0.contains((nodes[j].coordinates, nodes[j].g as int)) {
                        let k = choose|k: int| 0 <= k < fr.len() && (#[trigger] fr[k]).coordinates == nodes[j].coordinates && fr[k].g == nodes[j].g;
                        if k < i {
                            assert(self.open_set@[k] == fr[k]);
                        } else if k > i {
                            assert(self.open_set@[k - 1] == fr[k]);
                        } else {
                            assert(self.expanded@.contains((nodes[j].coordinates, nodes[j].g as int)));
                        }
                    }
                }
                assert forall|j: int| 0 <= j < nodes.len() implies (#[trigger] nodes[j]).coordinates == self.start_coordinates || passable(
                    grid@,
                    nodes[j].coordinates.0 as int,
                    nodes[j].coordinates.1 as int,
                ) by {
                    let c = nodes[j].coordinates;
                    if c != self.start_coordinates {
                        assert(passable(cells_before, c.0 as int, c.1 as int));
                        assert(in_bounds(grid@, c.0 as int, c.1 as int));
                    }
                }
                let jc = choose|j: int| 0 <= j < nodes.len() && (#[trigger] nodes[j]).coordinates == curr.coordinates;
                assert(nodes[jc].coordinates == self.start_coordinates || !on_wall(cells_before, nodes[jc].coordinates));
                assert forall|p: (Coord, int)| #[trigger] ex0.contains(p) implies p.1 >= 0 && relaxed_around(nodes, grid@, p.0, p.1) by {
                    lemma_relaxed_after_paint(nodes, self.start_coordinates, cells_before, grid@, curr.coordinates.0 as int, curr.coordinates.1 as int, p.0, p.1);
                }
            }
        }
        let mut k: usize = 0;
        while k < neighbors.len()
            invariant
                k <= neighbors@.len(),
                neighbors@ == neighbors_of(grid@, curr.coordinates),
                forall|t: int| 0 <= t < neighbors@.len() ==> adjacent(curr.coordinates, #[trigger] neighbors@[t]),
                forall|t: int| 0 <= t < neighbors@.len() ==> !on_wall(grid@, #[trigger] neighbors@[t]),
                self.inv(),
                clear_of_walls(self.discovered(), self.start(), grid@),
                self.start() == before.start(),
                self.goal() == before.goal(),
                never_raised(before.discovered(), self.discovered()),
                self.frontier() == rest + pushes(before.discovered(), curr, neighbors@.subrange(0, k as int), before.goal()),
                forall|a: int, b: int| 0 <= a < b < neighbors@.len() ==> #[trigger] neighbors@[a] != #[trigger] neighbors@[b],
                forall|j: int|
                    0 <= j < self.discovered().len() ==> (j < before.discovered().len() && #[trigger] self.discovered()[j]
                        == before.discovered()[j]) || (exists|t: int| 0 <= t < k && neighbors@[t] == self.discovered()[j].coordinates),
                has_node(self.discovered(), curr.coordinates),
                cost_at_most(self.discovered(), curr.coordinates, curr.g as int),
                curr.g < i32::MAX ==> forall|t: int| 0 <= t < k ==> {
                    let nb = #[trigger] neighbors@[t];
                    has_node(self.discovered(), nb) && cost_at_most(self.discovered(), nb, curr.g + 1)
                },
                self.expanded_set() == ex0.insert((curr.coordinates, curr.g as int)),
                settled0 ==> cost_at_most(self.discovered(), before.start(), 0),
                settled0 ==> has_node(self.discovered(), before.start()),
                settled0 ==> forall|j: int|
                    0 <= j < self.discovered().len() ==> (#[trigger] self.discovered()[j]).coordinates == before.start() || passable(
                        grid@,
                        self.discovered()[j].coordinates.0 as int,
                        self.discovered()[j].coordinates.1 as int,
                    ),
                forall|t: int| 0 <= t < neighbors@.len() ==> passable(grid@, (#[trigger] neighbors@[t]).0 as int, neighbors@[t].1 as int),
                settled0 ==> forall|j: int|
                    0 <= j < self.discovered().len() ==> covered(self.frontier(), self.expanded_set(), (#[trigger] self.discovered()[j]).coordinates, self.discovered()[j].g as int),
                settled0 ==> forall|p: (Coord, int)| #[trigger] ex0.contains(p) ==> p.1 >= 0 && relaxed_around(self.discovered(), grid@, p.0, p.1),
            decreases neighbors@.len() - k,
        {
            let ghost n0 = self.nodes@;
            let ghost fr0 = self.open_set@;
            self.relax(&curr, neighbors[k]);
            proof {
                let n1 = self.nodes@;
                lemma_has_node_kept(n0, n1);
                assert forall|i: int| 0 <= i < n1.len() implies (#[trigger] n1[i]).coordinates == self.start_coordinates || !on_wall(grid@, n1[i].coordinates) by {
                    if i < n0.len() {
                        assert(n0[i].coordinates == n1[i].coordinates);
                    }
                }
                if curr.g < i32::MAX {
                    assert forall|t: int| 0 <= t < k + 1 implies {
                        let nb = #[trigger] neighbors@[t];
                        has_node(n1, nb) && cost_at_most(n1, nb, curr.g + 1)
                    } by {
                        if t < k {
                            lemma_cost_kept(n0, n1, neighbors@[t], curr.g + 1);
                        }
                    }
                }
                let nb = neighbors@[k as int];
                let nb0 = before.nodes@;
                assert(neighbors@.subrange(0, k + 1).drop_last() =~= neighbors@.subrange(0, k as int));
                assert(neighbors@.subrange(0, k + 1).last() == nb);
                // the records of `nb` are still those from before the step
                assert(has_node(n0, nb) == has_node(nb0, nb)) by {
                    if has_node(n0, nb) {
                        let j = choose|j: int| 0 <= j < n0.len() && (#[trigger] n0[j]).coordinates == nb;
                        if !(j < nb0.len() && n0[j] == nb0[j]) {
                            let t = choose|t: int| 0 <= t < k && neighbors@[t] == n0[j].coordinates;
                            assert(neighbors@[t] != neighbors@[k as int]);
                        }
                    }
                    if has_node(nb0, nb) {
                        lemma_has_node_kept(nb0, n0);
                    }
                }
                assert forall|t: int| cost_at_most(n0, nb, t) == cost_at_most(nb0, nb, t) by {
                    if cost_at_most(n0, nb, t) {
                        assert forall|j: int| 0 <= j < nb0.len() && (#[trigger] nb0[j]).coordinates == nb implies nb0[j].g <= t by {
                            assert(n0[j].coordinates == nb);
                            if !(j < nb0.len() && n0[j] == nb0[j]) {
                                let q = choose|q: int| 0 <= q < k && neighbors@[q] == n0[j].coordinates;
                                assert(neighbors@[q] != neighbors@[k as int]);
                            }
                        }
                    }
                    if cost_at_most(nb0, nb, t) {
                        assert forall|j: int| 0 <= j < n0.len() && (#[trigger] n0[j]).coordinates == nb implies n0[j].g <= t by {
                            if !(j < nb0.len() && n0[j] == nb0[j]) {
                                let q = choose|q: int| 0 <= q < k && neighbors@[q] == n0[j].coordinates;
                                assert(neighbors@[q] != neighbors@[k as int]);
                            }
                        }
                    }
                }
                assert(self.open_set@ =~= rest + pushes(nb0, curr, neighbors@.subrange(0, k + 1), before.goal()));
                assert forall|j: int| 0 <= j < n1.len() implies (j < nb0.len() && #[trigger] n1[j] == nb0[j]) || (exists|t: int|
                    0 <= t < k + 1 && neighbors@[t] == n1[j].coordinates) by {
                    if j < n0.len() && n0[j].coordinates != nb {
                        assert(n1[j] == n0[j]);
                        if !(j < nb0.len() && n0[j] == nb0[j]) {
                            let t = choose|t: int| 0 <= t < k && neighbors@[t] == n0[j].coordinates;
                            assert(neighbors@[t] == n1[j].coordinates);
                        }
                    } else {
                        assert(neighbors@[k as int] == n1[j].coordinates);
                    }
                }
                if settled0 {
                    assert forall|j: int| 0 <= j < n1.len() implies (#[trigger] n1[j]).coordinates == self.start_coordinates || passable(
                        grid@,
                        n1[j].coordinates.0 as int,
                        n1[j].coordinates.1 as int,
                    ) by {
                        if j < n0.len() {
                            assert(n0[j].coordinates == n1[j].coordinates);
                        }
                    }
                    lemma_cost_kept(n0, n1, self.start_coordinates, 0);
                    let fr1 = self.open_set@;
                    assert forall|j: int| 0 <= j < n1.len() implies covered(fr1, self.expanded@, (#[trigger] n1[j]).coordinates, n1[j].g as int) by {
                        if j < n0.len() && n1[j] == n0[j] {
                            assert(covered(fr0, self.expanded@, n0[j].coordinates, n0[j].g as int));
                            if !self.expanded@.contains((n0[j].coordinates, n0[j].g as int)) {
                                let q = choose|q: int| 0 <= q < fr0.len() && (#[trigger] fr0[q]).coordinates == n0[j].coordinates && fr0[q].g == n0[j].g;
                                assert(fr1.subrange(0, fr0.len() as int) == fr0);
                                assert(fr1[q] == fr0[q]);
                            }
                        } else {
                            assert(fr1[fr1.len() - 1].coordinates == n1[j].coordinates);
                        }
                    }
                    assert forall|p: (Coord, int)| #[trigger] ex0.contains(p) implies p.1 >= 0 && relaxed_around(n1, grid@, p.0, p.1) by {
                        assert(relaxed_around(n0, grid@, p.0, p.1));
                        if p.1 < i32::MAX {
                            assert forall|nb: Coord| #[trigger] adjacent(p.0, nb) && passable(grid@, nb.0 as int, nb.1 as int) implies has_node(n1, nb)
                                && cost_at_most(n1, nb, p.1 + 1) by {
                                lemma_cost_kept(n0, n1, nb, p.1 + 1);
                            }
                        }
                    }
                }
            }
            k = k + 1;
        }
        proof {
            assert(neighbors@.subrange(0, neighbors@.len() as int) =~= neighbors@);
            if settled0 {
                let nodes = self.nodes@;
                assert forall|p: (Coord, int)| #[trigger] self.expanded@.contains(p) implies p.1 >= 0 && relaxed_around(nodes, grid@, p.0, p.1) by {
                    if !ex0.contains(p) {
                        assert(p == (curr.coordinates, curr.g as int));
                        assert(0 <= curr.g) by {
                            let j = choose|j: int| 0 <= j < nodes.len() && (#[trigger] nodes[j]).coordinates == curr.coordinates;
                        }
                        if curr.g < i32::MAX {
                            assert forall|nb: Coord| #[trigger] adjacent(p.0, nb) && passable(grid@, nb.0 as int, nb.1 as int) implies has_node(nodes, nb)
                                && cost_at_most(nodes, nb, p.1 + 1) by {
                                lemma_neighbor_listed(grid@, curr.coordinates, nb);
                                let t = choose|t: int| 0 <= t < neighbors@.len() && #[trigger] neighbors@[t] == nb;
                            }
                        }
                    }
                }
                assert forall|w: int| !self.expanded@.contains((self.end_coordinates, w)) by {
                    assert(!ex0.contains((before.end_coordinates, w)));
                }
                assert(has_node(nodes, self.start_coordinates));
            }
        }
        AlgorithmResult::ModifiedGrid
    }

    fn manhattan_distance(from: Coord, to: Coord) -> (r: u64)
        ensures
            r == manhattan(from, to),
    {
        let dx: i64 = to.0 as i64 - from.0 as i64;
        let dy: i64 = to.1 as i64 - from.1 as i64;
        let ax: i64 = if dx < 0 { -dx } else { dx };
        let ay: i64 = if dy < 0 { -dy } else { dy };
        (ax + ay) as u64
    }

    fn find_node(nodes: &Vec<AStarNode>, c: Coord) -> (r: Option<usize>)
        ensures
            match r {
                Some(i) => i < nodes@.len() && nodes@[i as int].coordinates == c,
                None => !has_node(nodes@, c),
            },
    {
        let mut i: usize = 0;
        while i < nodes.len()
            invariant
                i <= nodes@.len(),
                forall|j: int| 0 <= j < i ==> (#[trigger] nodes@[j]).coordinates != c,
            decreases nodes@.len() - i,
        {
            if nodes[i].coordinates.0 == c.0 && nodes[i].coordinates.1 == c.1 {
                return Some(i);
            }
            i = i + 1;
        }
        None
    }

    /// The index of a frontier entry that no other entry precedes.
    fn min_index(frontier: &Vec<AStarNode>) -> (r: usize)
        requires
            frontier@.len() > 0,
        ensures
            is_first_min(frontier@, r as int),
    {
        let mut best: usize = 0;
        let mut i: usize = 1;
        while i < frontier.len()
            invariant
                0 < i <= frontier@.len(),
                best < i,
                forall|k: int| 0 <= k < i ==> !precedes(#[trigger] frontier@[k], frontier@[best as int]),
                forall|k: int| 0 <= k < best ==> precedes(frontier@[best as int], #[trigger] frontier@[k]),
            decreases frontier@.len() - i,
        {
            let a = &frontier[i];
            let b = &frontier[best];
            if a.f < b.f || (a.f == b.f && a.h < b.h) {
                best = i;
            }
            i = i + 1;
        }
        best
    }

    fn passable_cell(grid: &Vec<Vec<Node>>, x: i64, y: i64) -> (r: bool)
        ensures
            r == passable(grid@, x as int, y as int),
    {
        if x < 0 || y < 0 || x > i32::MAX as i64 || y > i32::MAX as i64 {
            return false;
        }
        if (y as usize) >= grid.len() || (x as usize) >= grid[y as usize].len() {
            return false;
        }
        grid[y as usize][x as usize].node_type != NodeType::Wall
    }

    fn get_neighbors(&self, grid: &Vec<Vec<Node>>, node: &AStarNode) -> (r: Vec<Coord>)
        ensures
            r@ == neighbors_of(grid@, node.coordinates),
    {
        let x = node.coordinates.0 as i64;
        let y = node.coordinates.1 as i64;
        let mut neighbors: Vec<Coord> = Vec::new();
        if Self::passable_cell(grid, x, y - 1) {
            neighbors.push((node.coordinates.0, (y - 1) as i32));
        }
        if Self::passable_cell(grid, x, y + 1) {
            neighbors.push((node.coordinates.0, (y + 1) as i32));
        }
        if Self::passable_cell(grid, x - 1, y) {
            neighbors.push(((x - 1) as i32, node.coordinates.1));
        }
        if Self::passable_cell(grid, x + 1, y) {
            neighbors.push(((x + 1) as i32, node.coordinates.1));
        }
        neighbors
    }
}

impl Algorithm for AStar {
    open spec fn well_formed(&self) -> bool {
        self.inv()
    }

    open spec fn kind(&self) -> AlgorithmType {
        AlgorithmType::Pathfinding
    }

    open spec fn fits(&self, cells: Seq<Vec<Node>>) -> bool {
        clear_of_walls(self.discovered(), self.start(), cells)
    }

    open spec fn seeded_from(&self, before: Self, start: Coord, end: Coord) -> bool {
        seeded(*self, start, end)
    }

    open spec fn stepped(&self, cells: Seq<Vec<Node>>, next: Self, after: Seq<Vec<Node>>, r: AlgorithmResult) -> bool {
        search_stepped(*self, next, cells, after, r)
    }

    proof fn lemma_fits_without_walls(&self, cells: Seq<Vec<Node>>) {
        assert forall|i: int| 0 <= i < self.discovered().len() implies (#[trigger] self.discovered()[i]).coordinates == self.start()
            || !on_wall(cells, self.discovered()[i].coordinates) by {
            let c = self.discovered()[i].coordinates;
            if in_bounds(cells, c.0 as int, c.1 as int) {
                assert(cell(cells, c.0 as int, c.1 as int) != NodeType::Wall);
            }
        }
    }

    fn init(&mut self, start: Coord, end: Coord) {
        AStar::init(self, start, end);
    }

    fn step(&mut self, grid: &mut Vec<Vec<Node>>) -> (r: AlgorithmResult) {
        let ghost before = *self;
        let ghost cells0 = grid@;
        let r = AStar::step(self, grid);
        proof {
            if before.frontier().len() > 0 {
                let i = choose|i: int| #[trigger] is_first_min(before.frontier(), i) && expanded(before, *self, i, cells0, grid@, r);
            }
            assert forall|y: int| 0 <= y < grid@.len() implies #[trigger] grid@[y]@.len() == grid@[0]@.len() by {
                assert(cells0[y]@.len() == cells0[0]@.len());
            }
        }
        r
    }

    fn algorithm_type(&self) -> (r: AlgorithmType) {
        AlgorithmType::Pathfinding
    }
}

} // verus!
