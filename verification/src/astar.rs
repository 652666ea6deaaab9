//! Shortest paths on the occupancy grid, found by best-first search with
//! the city-block distance to the goal as the estimate of what is left.

use crate::grid::{Grid2d, Vector2};
use std::collections::HashMap;
use vstd::prelude::*;

verus! {

/// Whether `b` is one step from `a`: next to it in its row or its column.
pub open spec fn adjacent(a: Vector2, b: Vector2) -> bool {
    ||| a.y == b.y && (a.x + 1 == b.x || b.x + 1 == a.x)
    ||| a.x == b.x && (a.y + 1 == b.y || b.y + 1 == a.y)
}

/// The city-block distance between two positions.
pub open spec fn manhattan(a: Vector2, b: Vector2) -> int {
    (if a.x > b.x {
        a.x - b.x
    } else {
        b.x - a.x
    }) + (if a.y > b.y {
        a.y - b.y
    } else {
        b.y - a.y
    })
}

/// Whether `path` leads from `start` to `goal` over open cells, one step at
/// a time.
pub open spec fn is_path(grid: &Grid2d, path: Seq<Vector2>, start: Vector2, goal: Vector2) -> bool {
    &&& path.len() > 0
    &&& path[0] == start
    &&& path[path.len() - 1] == goal
    &&& forall|i: int| 0 <= i < path.len() ==> grid.open_at(#[trigger] path[i])
    &&& forall|i: int| 0 <= i < path.len() - 1 ==> adjacent(#[trigger] path[i], path[i + 1])
}

/// Whether some path leads from `start` to `goal`.
pub open spec fn reachable(grid: &Grid2d, start: Vector2, goal: Vector2) -> bool {
    exists|path: Seq<Vector2>| is_path(grid, path, start, goal)
}

/// Two positions on the grid with the same cell are the same position.
pub proof fn location_is_injective(grid: &Grid2d, a: Vector2, b: Vector2)
    requires
        grid.contains(a),
        grid.contains(b),
        grid.location(a) == grid.location(b),
    ensures
        a == b,
{
    let w = grid.width as int;
    let (ax, ay, bx, by) = (a.x as int, a.y as int, b.x as int, b.y as int);
    assert(ay == by) by (nonlinear_arith)
        requires
            ay * w + ax == by * w + bx,
            0 <= ax < w,
            0 <= bx < w,
            0 <= ay,
            0 <= by,
    {
        if ay < by {
            assert((by - ay) * w >= w);
        }
        if by < ay {
            assert((ay - by) * w >= w);
        }
    }
}

/// The open neighbours of a position are the open positions one step away.
pub proof fn open_neighbors_are_the_adjacent(grid: &Grid2d, pos: Vector2)
    requires
        grid.wf(),
        grid.contains(pos),
    ensures
        forall|i: int|
            0 <= i < grid.open_neighbors(pos).len() ==> grid.open_at(
                #[trigger] grid.open_neighbors(pos)[i],
            ) && adjacent(pos, grid.open_neighbors(pos)[i]),
        forall|q: Vector2|
            adjacent(pos, q) && #[trigger] grid.open_at(q) ==> grid.open_neighbors(pos).contains(q),
{
    let right = grid.and_if_open(Seq::empty(), pos.x + 1, pos.y as int);
    let below = grid.and_if_open(right, pos.x as int, pos.y + 1);
    let left = grid.and_if_open(below, pos.x - 1, pos.y as int);
    let all = grid.and_if_open(left, pos.x as int, pos.y - 1);
    assert(all == grid.open_neighbors(pos));
    assert forall|q: Vector2| adjacent(pos, q) && #[trigger] grid.open_at(q) implies all.contains(
        q,
    ) by {
        if q.y == pos.y && q.x == pos.x + 1 {
            assert(right[0] == q);
            assert(all[0] == q);
        } else if q.x == pos.x && q.y == pos.y + 1 {
            assert(below[below.len() - 1] == q);
            assert(all[below.len() - 1] == q);
        } else if q.y == pos.y && q.x + 1 == pos.x {
            assert(left[left.len() - 1] == q);
            assert(all[left.len() - 1] == q);
        } else {
            assert(all[all.len() - 1] == q);
        }
    }
}

/// One step changes the city-block distance to any position by at most one.
pub proof fn step_changes_distance_by_one(a: Vector2, b: Vector2, goal: Vector2)
    requires
        adjacent(a, b),
    ensures
        manhattan(a, goal) <= manhattan(b, goal) + 1,
{
}

/// Along a path, the city-block distance to the path's end never exceeds
/// the number of steps that are left.
pub proof fn distance_is_at_most_steps_left(
    grid: &Grid2d,
    path: Seq<Vector2>,
    start: Vector2,
    goal: Vector2,
    j: int,
)
    requires
        is_path(grid, path, start, goal),
        0 <= j < path.len(),
    ensures
        manhattan(path[j], goal) <= path.len() - 1 - j,
    decreases path.len() - j,
{
    if j < path.len() - 1 {
        distance_is_at_most_steps_left(grid, path, start, goal, j + 1);
        step_changes_distance_by_one(path[j], path[j + 1], goal);
    }
}

/// A position that waits to be expanded.
#[derive(Clone, Copy)]
struct Node {
    /// The position.
    pos: Vector2,
    /// Steps taken to reach it, plus the estimate of the steps left.
    f: u128,
    /// Steps taken to reach it.
    g: usize,
}

/// Whether `a` is expanded before `b`: it promises the shorter path or,
/// where both promise the same, it was reached in fewer steps.
spec fn goes_before(a: Node, b: Node) -> bool {
    a.f < b.f || (a.f == b.f && a.g < b.g)
}

/// Tells whether `a` is expanded before `b`.
fn precedes(a: &Node, b: &Node) -> (r: bool)
    ensures
        r == goes_before(*a, *b),
{
    a.f < b.f || (a.f == b.f && a.g < b.g)
}

/// Takes out of `open` the node that is expanded next: one that no other
/// goes before, and of several such the one that has waited longest.
fn pop_best(open: &mut Vec<Node>) -> (r: (Node, Ghost<int>))
    requires
        old(open)@.len() > 0,
    ensures
        0 <= r.1@ < old(open)@.len(),
        r.0 == old(open)@[r.1@],
        final(open)@ == old(open)@.remove(r.1@),
        forall|j: int| 0 <= j < old(open)@.len() ==> !goes_before(#[trigger] old(open)@[j], r.0),
{
    let mut best: usize = 0;
    let mut i: usize = 1;
    while i < open.len()
        invariant
            open@ == old(open)@,
            0 <= best < i <= open@.len(),
            forall|j: int| 0 <= j < i ==> !goes_before(#[trigger] open@[j], open@[best as int]),
        decreases open@.len() - i,
    {
        if precedes(&open[i], &open[best]) {
            best = i;
        }
        i += 1;
    }
    let node = open.remove(best);
    (node, Ghost(best as int))
}

/// The city-block distance between two positions on the grid.
fn heuristic(grid: &Grid2d, a: Vector2, b: Vector2) -> (h: usize)
    requires
        grid.wf(),
        grid.contains(a),
        grid.contains(b),
    ensures
        h == manhattan(a, b),
        h < grid.cells@.len(),
{
    let dx: usize = if a.x > b.x {
        a.x - b.x
    } else {
        b.x - a.x
    };
    let dy: usize = if a.y > b.y {
        a.y - b.y
    } else {
        b.y - a.y
    };
    assert(dx + dy < grid.width * grid.height) by (nonlinear_arith)
        requires
            dx < grid.width,
            dy < grid.height,
    {
        assert((grid.width - 1 - dx) * (grid.height - 1 - dy) >= 0);
        assert((dx + 1) * (dy + 1) <= grid.width * grid.height);
    }
    let total: usize = grid.cells.len();
    dx + dy
}

/// The search as a mathematical object: the nodes that wait, the fewest
/// steps known to each reached cell, and the position from which each
/// reached cell was reached in that many steps.
struct SearchView {
    open: Seq<Node>,
    g: Map<usize, usize>,
    from: Map<usize, Vector2>,
}

/// The key under which the search files the cell at `p`.
spec fn key(grid: &Grid2d, p: Vector2) -> usize {
    grid.location(p) as usize
}

proof fn key_is_location(grid: &Grid2d, p: Vector2)
    requires
        grid.wf(),
        grid.contains(p),
    ensures
        key(grid, p) == grid.location(p),
        key(grid, p) < grid.cells@.len(),
        grid.cells@.len() <= usize::MAX,
{
    grid.location_in_range(p);
    assert(grid.cells@.len() == grid.cells.len());
}

proof fn keys_differ(grid: &Grid2d, p: Vector2, q: Vector2)
    requires
        grid.wf(),
        grid.contains(p),
        grid.contains(q),
        p != q,
    ensures
        key(grid, p) != key(grid, q),
{
    key_is_location(grid, p);
    key_is_location(grid, q);
    if key(grid, p) == key(grid, q) {
        location_is_injective(grid, p, q);
    }
}

/// Every key is the key of a cell of the grid.
spec fn keys_ok(grid: &Grid2d, s: SearchView) -> bool {
    forall|k: usize| #[trigger] s.g.contains_key(k) ==> k < grid.cells@.len()
}

/// Every waiting node stands on an open cell that was reached in no more
/// steps than the node says, and promises what its steps and the estimate
/// add up to.
spec fn entries_ok(grid: &Grid2d, s: SearchView, goal: Vector2) -> bool {
    forall|i: int|
        0 <= i < s.open.len() ==> {
            let e = #[trigger] s.open[i];
            &&& grid.open_at(e.pos)
            &&& s.g.contains_key(key(grid, e.pos))
            &&& s.g[key(grid, e.pos)] <= e.g
            &&& e.f == e.g + manhattan(e.pos, goal)
        }
}

/// The start was reached in no steps, from nowhere.
spec fn start_ok(grid: &Grid2d, s: SearchView, start: Vector2) -> bool {
    &&& s.g.contains_key(key(grid, start))
    &&& s.g[key(grid, start)] == 0
    &&& !s.from.contains_key(key(grid, start))
}

/// Whether `p` was reached from an open cell one step away that was itself
/// reached in fewer steps.
spec fn linked(grid: &Grid2d, s: SearchView, p: Vector2) -> bool {
    let q = s.from[key(grid, p)];
    &&& s.from.contains_key(key(grid, p))
    &&& grid.open_at(q)
    &&& adjacent(q, p)
    &&& s.g.contains_key(key(grid, q))
    &&& s.g[key(grid, q)] < s.g[key(grid, p)]
}

/// Every reached cell but the start is linked to the cell before it.
spec fn tree_ok(grid: &Grid2d, s: SearchView, start: Vector2) -> bool {
    forall|p: Vector2|
        grid.open_at(p) && s.g.contains_key(key(grid, p)) && p != start ==> #[trigger] linked(
            grid,
            s,
            p,
        )
}

/// No count of steps reaches the number of reached cells.
spec fn bound_ok(s: SearchView) -> bool {
    &&& s.g.dom().finite()
    &&& forall|k: usize| #[trigger] s.g.contains_key(k) ==> s.g[k] < s.g.dom().len()
    &&& forall|i: int| 0 <= i < s.open.len() ==> (#[trigger] s.open[i]).g < s.g.dom().len()
}

/// Once the goal is reached, a node on it waits.
spec fn goal_ok(grid: &Grid2d, s: SearchView, goal: Vector2) -> bool {
    s.g.contains_key(key(grid, goal)) ==> exists|i: int|
        0 <= i < s.open.len() && (#[trigger] s.open[i]).pos == goal
}

/// Whether a node on `p` waits that says in how few steps `p` was reached.
spec fn live(grid: &Grid2d, s: SearchView, p: Vector2) -> bool {
    exists|i: int|
        0 <= i < s.open.len() && (#[trigger] s.open[i]).pos == p && s.open[i].g == s.g[key(
            grid,
            p,
        )]
}

/// Whether every open cell one step from `p` was reached, in at most one
/// step more than `p`.
spec fn settled(grid: &Grid2d, s: SearchView, p: Vector2) -> bool {
    forall|q: Vector2|
        adjacent(p, q) && #[trigger] grid.open_at(q) ==> s.g.contains_key(key(grid, q)) && s.g[key(
            grid,
            q,
        )] <= s.g[key(grid, p)] + 1
}

/// Every reached cell but `except` has a node waiting or is settled.
spec fn closed_ok(grid: &Grid2d, s: SearchView, except: Option<Vector2>) -> bool {
    forall|p: Vector2|
        grid.open_at(p) && #[trigger] s.g.contains_key(key(grid, p)) && except != Some(p)
            ==> live(grid, s, p) || settled(grid, s, p)
}

/// What holds of the search between any two of its steps.
spec fn inv(
    grid: &Grid2d,
    s: SearchView,
    start: Vector2,
    goal: Vector2,
    except: Option<Vector2>,
) -> bool {
    &&& grid.wf()
    &&& grid.open_at(start)
    &&& grid.open_at(goal)
    &&& keys_ok(grid, s)
    &&& entries_ok(grid, s, goal)
    &&& start_ok(grid, s, start)
    &&& tree_ok(grid, s, start)
    &&& bound_ok(s)
    &&& goal_ok(grid, s, goal)
    &&& closed_ok(grid, s, except)
}

/// The keys below `total`.
spec fn below(total: nat) -> Set<usize> {
    Set::new(|k: usize| k < total)
}

proof fn below_has_total(total: nat)
    requires
        total <= usize::MAX + 1,
    ensures
        below(total).finite(),
        below(total).len() == total,
    decreases total,
{
    if total == 0 {
        assert(below(total) =~= Set::<usize>::empty());
    } else {
        below_has_total((total - 1) as nat);
        assert(below(total) =~= below((total - 1) as nat).insert((total - 1) as usize));
    }
}

/// Fewer cells are reached than there are, while one is not reached.
proof fn reached_is_bounded(grid: &Grid2d, s: SearchView, k: usize)
    requires
        keys_ok(grid, s),
        s.g.dom().finite(),
        k < grid.cells@.len(),
    ensures
        s.g.dom().len() <= grid.cells@.len(),
        !s.g.contains_key(k) ==> s.g.dom().len() < grid.cells@.len(),
{
    let total = grid.cells@.len();
    assert(total == grid.cells.len());
    below_has_total(total);
    vstd::set_lib::lemma_len_subset(s.g.dom(), below(total));
    if !s.g.contains_key(k) {
        vstd::set_lib::lemma_len_subset(s.g.dom().insert(k), below(total));
    }
}

/// What the cell with key `k` adds to the measure of work left.
spec fn weight(g: Map<usize, usize>, k: usize, total: nat) -> nat {
    if g.contains_key(k) {
        g[k] as nat
    } else {
        total
    }
}

/// The measure of work left: what the cells with keys below `upto` add.
spec fn potential(g: Map<usize, usize>, upto: nat, total: nat) -> nat
    decreases upto,
{
    if upto == 0 {
        0
    } else {
        potential(g, (upto - 1) as nat, total) + weight(g, (upto - 1) as usize, total)
    }
}

proof fn potential_after_insert(g: Map<usize, usize>, k: usize, v: usize, upto: nat, total: nat)
    requires
        v <= weight(g, k, total),
        upto <= usize::MAX + 1,
    ensures
        potential(g.insert(k, v), upto, total) == potential(g, upto, total) - (if k < upto {
            weight(g, k, total) - v
        } else {
            0
        }),
    decreases upto,
{
    if upto > 0 {
        potential_after_insert(g, k, v, (upto - 1) as nat, total);
    }
}

/// The search after `nb` was found to be one step from `current`, which
/// was reached in `cg` steps.
spec fn relaxed(
    grid: &Grid2d,
    s: SearchView,
    current: Vector2,
    cg: usize,
    nb: Vector2,
    goal: Vector2,
) -> SearchView {
    SearchView {
        open: s.open.push(
            Node { pos: nb, f: (cg + 1 + manhattan(nb, goal)) as u128, g: (cg + 1) as usize },
        ),
        g: s.g.insert(key(grid, nb), (cg + 1) as usize),
        from: s.from.insert(key(grid, nb), current),
    }
}

/// Whether reaching `nb` in one step more than `cg` is news.
spec fn improves(grid: &Grid2d, s: SearchView, cg: usize, nb: Vector2) -> bool {
    !s.g.contains_key(key(grid, nb)) || cg + 1 < s.g[key(grid, nb)]
}

/// What the search needs to know of a step from `current` to `nb`.
spec fn step_ok(
    grid: &Grid2d,
    s: SearchView,
    start: Vector2,
    current: Vector2,
    cg: usize,
    nb: Vector2,
) -> bool {
    &&& grid.wf()
    &&& grid.open_at(start)
    &&& grid.open_at(current)
    &&& grid.open_at(nb)
    &&& adjacent(current, nb)
    &&& start_ok(grid, s, start)
    &&& s.g.contains_key(key(grid, current))
    &&& s.g[key(grid, current)] == cg
    &&& improves(grid, s, cg, nb)
}

proof fn relax_keeps_counts(
    grid: &Grid2d,
    s: SearchView,
    start: Vector2,
    goal: Vector2,
    current: Vector2,
    cg: usize,
    nb: Vector2,
)
    requires
        step_ok(grid, s, start, current, cg, nb),
        keys_ok(grid, s),
        bound_ok(s),
    ensures
        cg + 1 < grid.cells@.len(),
        grid.cells@.len() <= usize::MAX,
        nb != start,
        nb != current,
        key(grid, nb) != key(grid, start),
        key(grid, nb) != key(grid, current),
        keys_ok(grid, relaxed(grid, s, current, cg, nb, goal)),
        bound_ok(relaxed(grid, s, current, cg, nb, goal)),
        potential(
            relaxed(grid, s, current, cg, nb, goal).g,
            grid.cells@.len(),
            grid.cells@.len(),
        ) < potential(s.g, grid.cells@.len(), grid.cells@.len()),
{
    let t = relaxed(grid, s, current, cg, nb, goal);
    let k = key(grid, nb);
    let total = grid.cells@.len();
    key_is_location(grid, nb);
    reached_is_bounded(grid, s, k);
    keys_differ(grid, nb, start);
    keys_differ(grid, nb, current);
    assert(t.g.dom() =~= s.g.dom().insert(k));
    if s.g.contains_key(k) {
        assert(t.g.dom() =~= s.g.dom());
    }
    assert(cg + 1 <= weight(s.g, k, total));
    potential_after_insert(s.g, k, (cg + 1) as usize, total, total);
    assert forall|j: usize| #[trigger] t.g.contains_key(j) implies t.g[j] < t.g.dom().len() by {
        if j != k {
            assert(s.g.contains_key(j));
        }
    }
    assert forall|i: int| 0 <= i < t.open.len() implies (#[trigger] t.open[i]).g
        < t.g.dom().len() by {
        if i < s.open.len() {
            assert(t.open[i] == s.open[i]);
        }
    }
}

proof fn relax_keeps_entries(
    grid: &Grid2d,
    s: SearchView,
    start: Vector2,
    goal: Vector2,
    current: Vector2,
    cg: usize,
    nb: Vector2,
)
    requires
        step_ok(grid, s, start, current, cg, nb),
        entries_ok(grid, s, goal),
        goal_ok(grid, s, goal),
        grid.open_at(goal),
        cg + 1 + manhattan(nb, goal) <= u128::MAX,
        cg + 1 <= usize::MAX,
    ensures
        entries_ok(grid, relaxed(grid, s, current, cg, nb, goal), goal),
        goal_ok(grid, relaxed(grid, s, current, cg, nb, goal), goal),
{
    let t = relaxed(grid, s, current, cg, nb, goal);
    let k = key(grid, nb);
    assert forall|i: int| 0 <= i < t.open.len() implies {
        let e = #[trigger] t.open[i];
        &&& grid.open_at(e.pos)
        &&& t.g.contains_key(key(grid, e.pos))
        &&& t.g[key(grid, e.pos)] <= e.g
        &&& e.f == e.g + manhattan(e.pos, goal)
    } by {
        if i < s.open.len() {
            assert(t.open[i] == s.open[i]);
        }
    }
    if t.g.contains_key(key(grid, goal)) {
        if nb == goal {
            assert(t.open[t.open.len() - 1].pos == goal);
        } else {
            keys_differ(grid, nb, goal);
            assert(s.g.contains_key(key(grid, goal)));
            let i = choose|i: int| 0 <= i < s.open.len() && (#[trigger] s.open[i]).pos == goal;
            assert(t.open[i].pos == goal);
        }
    }
}

proof fn relax_keeps_tree(
    grid: &Grid2d,
    s: SearchView,
    start: Vector2,
    goal: Vector2,
    current: Vector2,
    cg: usize,
    nb: Vector2,
)
    requires
        step_ok(grid, s, start, current, cg, nb),
        tree_ok(grid, s, start),
        cg + 1 <= usize::MAX,
    ensures
        start_ok(grid, relaxed(grid, s, current, cg, nb, goal), start),
        tree_ok(grid, relaxed(grid, s, current, cg, nb, goal), start),
{
    let t = relaxed(grid, s, current, cg, nb, goal);
    let k = key(grid, nb);
    assert(nb != start);
    keys_differ(grid, nb, start);
    keys_differ(grid, nb, current);
    assert forall|p: Vector2|
        grid.open_at(p) && t.g.contains_key(key(grid, p)) && p != start implies #[trigger] linked(
        grid,
        t,
        p,
    ) by {
        if p == nb {
        } else {
            keys_differ(grid, p, nb);
            assert(s.g.contains_key(key(grid, p)));
            assert(linked(grid, s, p));
            let q = s.from[key(grid, p)];
            assert(t.from[key(grid, p)] == q);
            if q != nb {
                keys_differ(grid, q, nb);
            }
        }
    }
}

proof fn relax_keeps_closed(
    grid: &Grid2d,
    s: SearchView,
    start: Vector2,
    goal: Vector2,
    current: Vector2,
    cg: usize,
    nb: Vector2,
)
    requires
        step_ok(grid, s, start, current, cg, nb),
        closed_ok(grid, s, Some(current)),
        cg + 1 <= usize::MAX,
    ensures
        closed_ok(grid, relaxed(grid, s, current, cg, nb, goal), Some(current)),
        relaxed(grid, s, current, cg, nb, goal).g[key(grid, current)] == cg,
        relaxed(grid, s, current, cg, nb, goal).g[key(grid, nb)] == cg + 1,
        forall|q: Vector2|
            grid.open_at(q) && #[trigger] s.g.contains_key(key(grid, q)) ==> relaxed(
                grid,
                s,
                current,
                cg,
                nb,
                goal,
            ).g.contains_key(key(grid, q)) && relaxed(grid, s, current, cg, nb, goal).g[key(
                grid,
                q,
            )] <= s.g[key(grid, q)],
{
    let t = relaxed(grid, s, current, cg, nb, goal);
    let k = key(grid, nb);
    keys_differ(grid, nb, current);
    assert forall|q: Vector2| grid.open_at(q) && #[trigger] s.g.contains_key(key(grid, q)) implies t.g.contains_key(
        key(grid, q),
    ) && t.g[key(grid, q)] <= s.g[key(grid, q)] by {
        if q != nb {
            keys_differ(grid, q, nb);
        }
    }
    assert forall|p: Vector2|
        grid.open_at(p) && #[trigger] t.g.contains_key(key(grid, p)) && Some(current) != Some(
            p,
        ) implies live(grid, t, p) || settled(grid, t, p) by {
        if p == nb {
            assert(t.open[t.open.len() - 1].pos == p);
        } else {
            keys_differ(grid, p, nb);
            assert(s.g.contains_key(key(grid, p)));
            if live(grid, s, p) {
                let i = choose|i: int|
                    0 <= i < s.open.len() && (#[trigger] s.open[i]).pos == p && s.open[i].g
                        == s.g[key(grid, p)];
                assert(t.open[i] == s.open[i]);
            } else {
                assert(settled(grid, s, p));
                assert forall|q: Vector2| adjacent(p, q) && #[trigger] grid.open_at(q) implies t.g.contains_key(
                    key(grid, q),
                ) && t.g[key(grid, q)] <= t.g[key(grid, p)] + 1 by {
                    assert(s.g.contains_key(key(grid, q)));
                }
            }
        }
    }
}

/// The search after the node at place `k` was taken out to be expanded.
spec fn popped(s: SearchView, k: int) -> SearchView {
    SearchView { open: s.open.remove(k), g: s.g, from: s.from }
}

proof fn pop_keeps_inv(grid: &Grid2d, s: SearchView, start: Vector2, goal: Vector2, k: int)
    requires
        inv(grid, s, start, goal, None),
        0 <= k < s.open.len(),
        s.open[k].pos != goal,
    ensures
        inv(grid, popped(s, k), start, goal, Some(s.open[k].pos)),
        s.open[k].g > s.g[key(grid, s.open[k].pos)] ==> inv(
            grid,
            popped(s, k),
            start,
            goal,
            None,
        ),
{
    let t = popped(s, k);
    let current = s.open[k].pos;
    assert forall|i: int| 0 <= i < t.open.len() implies {
        let e = #[trigger] t.open[i];
        &&& grid.open_at(e.pos)
        &&& t.g.contains_key(key(grid, e.pos))
        &&& t.g[key(grid, e.pos)] <= e.g
        &&& e.f == e.g + manhattan(e.pos, goal)
        &&& e.g < t.g.dom().len()
    } by {
        if i < k {
            assert(t.open[i] == s.open[i]);
        } else {
            assert(t.open[i] == s.open[i + 1]);
        }
    }
    if t.g.contains_key(key(grid, goal)) {
        let i = choose|i: int| 0 <= i < s.open.len() && (#[trigger] s.open[i]).pos == goal;
        if i < k {
            assert(t.open[i].pos == goal);
        } else {
            assert(t.open[i - 1].pos == goal);
        }
    }
    assert(tree_ok(grid, t, start)) by {
        assert forall|p: Vector2|
            grid.open_at(p) && t.g.contains_key(key(grid, p)) && p != start implies #[trigger] linked(
            grid,
            t,
            p,
        ) by {
            assert(linked(grid, s, p));
        }
    }
    assert forall|p: Vector2|
        grid.open_at(p) && #[trigger] t.g.contains_key(key(grid, p)) && (p != current
            || s.open[k].g > s.g[key(grid, current)]) implies live(grid, t, p) || settled(
        grid,
        t,
        p,
    ) by {
        if live(grid, s, p) {
            let i = choose|i: int|
                0 <= i < s.open.len() && (#[trigger] s.open[i]).pos == p && s.open[i].g
                    == s.g[key(grid, p)];
            assert(i != k);
            if i < k {
                assert(t.open[i] == s.open[i]);
            } else {
                assert(t.open[i - 1] == s.open[i]);
            }
        } else {
            assert(settled(grid, s, p));
            assert forall|q: Vector2| adjacent(p, q) && #[trigger] grid.open_at(q) implies t.g.contains_key(
                key(grid, q),
            ) && t.g[key(grid, q)] <= t.g[key(grid, p)] + 1 by {}
        }
    }
}

/// A cell all of whose open neighbours were looked at is settled.
proof fn expanded_is_settled(grid: &Grid2d, s: SearchView, current: Vector2)
    requires
        grid.wf(),
        grid.open_at(current),
        closed_ok(grid, s, Some(current)),
        forall|i: int|
            0 <= i < grid.open_neighbors(current).len() ==> s.g.contains_key(
                key(grid, #[trigger] grid.open_neighbors(current)[i]),
            ) && s.g[key(grid, grid.open_neighbors(current)[i])] <= s.g[key(grid, current)] + 1,
    ensures
        closed_ok(grid, s, None),
{
    open_neighbors_are_the_adjacent(grid, current);
    let nbrs = grid.open_neighbors(current);
    assert forall|q: Vector2| adjacent(current, q) && #[trigger] grid.open_at(q) implies s.g.contains_key(
        key(grid, q),
    ) && s.g[key(grid, q)] <= s.g[key(grid, current)] + 1 by {
        assert(nbrs.contains(q));
        let i = choose|i: int| 0 <= i < nbrs.len() && nbrs[i] == q;
        assert(s.g.contains_key(key(grid, nbrs[i])));
    }
    assert(settled(grid, s, current));
}

/// Along any path from the start, up to place `i`: either a node waits on
/// a cell of the path that was reached at least as fast as the path
/// reaches it, or the cell at place `i` itself was reached that fast and is
/// settled.
proof fn walk_along(
    grid: &Grid2d,
    s: SearchView,
    start: Vector2,
    goal: Vector2,
    path: Seq<Vector2>,
    i: int,
) -> (j: int)
    requires
        inv(grid, s, start, goal, None),
        is_path(grid, path, start, goal),
        0 <= i < path.len(),
    ensures
        0 <= j <= i,
        s.g.contains_key(key(grid, path[j])),
        s.g[key(grid, path[j])] <= j,
        live(grid, s, path[j]) || (j == i && settled(grid, s, path[i])),
    decreases i,
{
    if i == 0 {
        assert(grid.open_at(path[0]));
        assert(s.g.contains_key(key(grid, path[0])));
        0
    } else {
        let j = walk_along(grid, s, start, goal, path, i - 1);
        if live(grid, s, path[j]) {
            j
        } else {
            assert(settled(grid, s, path[i - 1]));
            assert(adjacent(path[i - 1], path[i]));
            assert(grid.open_at(path[i]));
            assert(s.g.contains_key(key(grid, path[i])));
            i
        }
    }
}

/// When the node that is expanded next stands on the goal, no path to the
/// goal takes fewer steps than the goal was reached in.
proof fn goal_is_reached_fastest(
    grid: &Grid2d,
    s: SearchView,
    start: Vector2,
    goal: Vector2,
    k: int,
    path: Seq<Vector2>,
)
    requires
        inv(grid, s, start, goal, None),
        0 <= k < s.open.len(),
        s.open[k].pos == goal,
        forall|j: int| 0 <= j < s.open.len() ==> !goes_before(#[trigger] s.open[j], s.open[k]),
        is_path(grid, path, start, goal),
    ensures
        s.g[key(grid, goal)] + 1 <= path.len(),
{
    let last = path.len() - 1;
    let j = walk_along(grid, s, start, goal, path, last);
    if live(grid, s, path[j]) {
        let m = choose|m: int|
            0 <= m < s.open.len() && (#[trigger] s.open[m]).pos == path[j] && s.open[m].g
                == s.g[key(grid, path[j])];
        distance_is_at_most_steps_left(grid, path, start, goal, j);
        assert(!goes_before(s.open[m], s.open[k]));
        assert(s.open[m].f <= last);
        assert(s.open[k].f == s.open[k].g + manhattan(goal, goal));
    }
}

/// When no node waits, the goal cannot be reached.
proof fn nothing_left_means_unreachable(
    grid: &Grid2d,
    s: SearchView,
    start: Vector2,
    goal: Vector2,
)
    requires
        inv(grid, s, start, goal, None),
        s.open.len() == 0,
    ensures
        !reachable(grid, start, goal),
{
    if reachable(grid, start, goal) {
        let path = choose|path: Seq<Vector2>| is_path(grid, path, start, goal);
        let j = walk_along(grid, s, start, goal, path, path.len() - 1);
        assert(s.g.contains_key(key(grid, goal)));
    }
}

/// The search that the maps and the list of an execution stand for.
spec fn view_of(
    open: Seq<Node>,
    g_score: Map<usize, usize>,
    came_from: Map<usize, Vector2>,
) -> SearchView {
    SearchView { open, g: g_score, from: came_from }
}

/// Follows the links back from the goal to the start and hands the cells
/// out in the order in which the path visits them.
fn reconstruct(
    grid: &Grid2d,
    came_from: &HashMap<usize, Vector2>,
    goal: Vector2,
    Ghost(s): Ghost<SearchView>,
    Ghost(start): Ghost<Vector2>,
) -> (path: Vec<Vector2>)
    requires
        grid.wf(),
        grid.open_at(start),
        grid.open_at(goal),
        start_ok(grid, s, start),
        tree_ok(grid, s, start),
        s.from == came_from@,
        s.g.contains_key(key(grid, goal)),
    ensures
        is_path(grid, path@, start, goal),
        path@.len() <= s.g[key(grid, goal)] + 1,
{
    broadcast use vstd::std_specs::hash::group_hash_axioms;

    let mut back: Vec<Vector2> = Vec::new();
    back.push(goal);
    let mut curr: Vector2 = goal;
    loop
        invariant_except_break
            grid.wf(),
            grid.open_at(start),
            start_ok(grid, s, start),
            tree_ok(grid, s, start),
            s.from == came_from@,
            back@.len() >= 1,
            back@[0] == goal,
            back@[back@.len() - 1] == curr,
            forall|i: int| 0 <= i < back@.len() ==> grid.open_at(#[trigger] back@[i]),
            forall|i: int| 0 <= i < back@.len() - 1 ==> adjacent(back@[i + 1], #[trigger] back@[i]),
            s.g.contains_key(key(grid, curr)),
            back@.len() + s.g[key(grid, curr)] <= s.g[key(grid, goal)] + 1,
        ensures
            back@.len() >= 1,
            back@[0] == goal,
            back@[back@.len() - 1] == start,
            forall|i: int| 0 <= i < back@.len() ==> grid.open_at(#[trigger] back@[i]),
            forall|i: int| 0 <= i < back@.len() - 1 ==> adjacent(back@[i + 1], #[trigger] back@[i]),
            back@.len() <= s.g[key(grid, goal)] + 1,
        decreases s.g[key(grid, curr)],
    {
        proof {
            key_is_location(grid, curr);
            key_is_location(grid, start);
        }
        let at: usize = grid.get_cell_location(curr);
        match came_from.get(&at) {
            Some(prev) => {
                proof {
                    assert(s.from.contains_key(key(grid, curr)));
                    assert(curr != start);
                    assert(linked(grid, s, curr));
                }
                back.push(*prev);
                curr = *prev;
            },
            None => {
                proof {
                    if curr != start {
                        assert(linked(grid, s, curr));
                    }
                }
                break ;
            },
        }
    }
    let mut path: Vec<Vector2> = Vec::new();
    let mut i: usize = back.len();
    while i > 0
        invariant
            i <= back@.len(),
            path@.len() == back@.len() - i,
            forall|j: int| 0 <= j < path@.len() ==> path@[j] == back@[back@.len() - 1 - j],
        decreases i,
    {
        i -= 1;
        path.push(back[i]);
    }
    assert forall|j: int| 0 <= j < path@.len() - 1 implies adjacent(
        #[trigger] path@[j],
        path@[j + 1],
    ) by {
        assert(adjacent(back@[back@.len() - 2 - j + 1], back@[back@.len() - 2 - j]));
    }
    path
}

impl Grid2d {
    /// A shortest path from `start` to `goal` over open cells, both ends
    /// included, one step at a time to the right, down, to the left or up.
    /// Empty where there is none: where an end lies off the grid, where an
    /// end is not free to pass, and where the obstacles part the two.
    pub fn astar(&self, start: Vector2, goal: Vector2) -> (path: Vec<Vector2>)
        requires
            self.wf(),
        ensures
            path@.len() > 0 <==> reachable(self, start, goal),
            path@.len() > 0 ==> is_path(self, path@, start, goal),
            forall|other: Seq<Vector2>| #[trigger]
                is_path(self, other, start, goal) ==> path@.len() <= other.len(),
    {
        broadcast use vstd::std_specs::hash::group_hash_axioms;

        if !self.in_bounds(start) || !self.in_bounds(goal) {
            assert forall|other: Seq<Vector2>| !#[trigger] is_path(self, other, start, goal) by {
                if is_path(self, other, start, goal) {
                    assert(self.open_at(other[0]));
                    assert(self.open_at(other[other.len() - 1]));
                }
            }
            return Vec::new();
        }
        proof {
            self.location_in_range(start);
            self.location_in_range(goal);
            key_is_location(self, start);
            key_is_location(self, goal);
        }
        if !self.is_passable(start) || !self.is_passable(goal) {
            assert forall|other: Seq<Vector2>| !#[trigger] is_path(self, other, start, goal) by {
                if is_path(self, other, start, goal) {
                    assert(self.open_at(other[0]));
                    assert(self.open_at(other[other.len() - 1]));
                }
            }
            return Vec::new();
        }
        let total: usize = self.cells.len();
        let mut open: Vec<Node> = Vec::new();
        let mut came_from: HashMap<usize, Vector2> = HashMap::with_capacity(total);
        let mut g_score: HashMap<usize, usize> = HashMap::with_capacity(total);

        g_score.insert(self.get_cell_location(start), 0);
        let h: usize = heuristic(self, start, goal);
        open.push(Node { pos: start, f: h as u128, g: 0 });
        proof {
            let s = view_of(open@, g_score@, came_from@);
            assert(s.g.dom() =~= set![key(self, start)]);
            assert(s.open[0].pos == start);
            assert(live(self, s, start));
            assert forall|p: Vector2|
                self.open_at(p) && #[trigger] s.g.contains_key(key(self, p)) implies live(
                self,
                s,
                p,
            ) by {
                if p != start {
                    keys_differ(self, p, start);
                }
            }
            assert forall|p: Vector2|
                self.open_at(p) && s.g.contains_key(key(self, p)) && p != start implies #[trigger] linked(
                self,
                s,
                p,
            ) by {
                keys_differ(self, p, start);
            }
        }

        while open.len() > 0
            invariant
                total == self.cells@.len(),
                inv(self, view_of(open@, g_score@, came_from@), start, goal, None),
            decreases potential(g_score@, total as nat, total as nat), open@.len(),
        {
            let ghost before = view_of(open@, g_score@, came_from@);
            let (node, Ghost(k)) = pop_best(&mut open);
            let current: Vector2 = node.pos;
            let current_g: usize = node.g;
            if current == goal {
                proof {
                    assert forall|other: Seq<Vector2>| #[trigger]
                        is_path(self, other, start, goal) implies before.g[key(self, goal)] + 1
                        <= other.len() by {
                        goal_is_reached_fastest(self, before, start, goal, k, other);
                    }
                }
                let path = reconstruct(self, &came_from, goal, Ghost(before), Ghost(start));
                return path;
            }
            proof {
                pop_keeps_inv(self, before, start, goal, k);
                assert(popped(before, k) == view_of(open@, g_score@, came_from@));
                key_is_location(self, current);
            }
            let at: usize = self.get_cell_location(current);
            match g_score.get(&at) {
                Some(old_g) => {
                    if current_g > *old_g {
                        continue ;
                    }
                },
                None => {},
            }
            let neighbors = self.neighbors(current);
            let mut i: usize = 0;
            while i < neighbors.len()
                invariant
                    total == self.cells@.len(),
                    neighbors@ == self.open_neighbors(current),
                    i <= neighbors@.len(),
                    self.open_at(current),
                    inv(self, view_of(open@, g_score@, came_from@), start, goal, Some(current)),
                    g_score@.contains_key(key(self, current)),
                    g_score@[key(self, current)] == current_g,
                    forall|j: int|
                        0 <= j < i ==> g_score@.contains_key(key(self, #[trigger] neighbors@[j]))
                            && g_score@[key(self, neighbors@[j])] <= current_g + 1,
                    potential(g_score@, total as nat, total as nat) <= potential(
                        before.g,
                        total as nat,
                        total as nat,
                    ),
                    potential(g_score@, total as nat, total as nat) == potential(
                        before.g,
                        total as nat,
                        total as nat,
                    ) ==> open@.len() == before.open.len() - 1,
                decreases neighbors@.len() - i,
            {
                let ghost s = view_of(open@, g_score@, came_from@);
                let neighbor: Vector2 = neighbors[i];
                proof {
                    open_neighbors_are_the_adjacent(self, current);
                    assert(self.open_at(neighbors@[i as int]));
                    key_is_location(self, neighbor);
                    reached_is_bounded(self, s, key(self, neighbor));
                }
                let to: usize = self.get_cell_location(neighbor);
                let tentative_g: usize = current_g + 1;
                let better = match g_score.get(&to) {
                    Some(neighbor_g) => tentative_g < *neighbor_g,
                    None => true,
                };
                if better {
                    proof {
                        assert(step_ok(self, s, start, current, current_g, neighbor));
                        relax_keeps_counts(self, s, start, goal, current, current_g, neighbor);
                        relax_keeps_tree(self, s, start, goal, current, current_g, neighbor);
                        relax_keeps_closed(self, s, start, goal, current, current_g, neighbor);
                    }
                    came_from.insert(to, current);
                    g_score.insert(to, tentative_g);
                    let h: usize = heuristic(self, neighbor, goal);
                    let f: u128 = tentative_g as u128 + h as u128;
                    open.push(Node { pos: neighbor, f, g: tentative_g });
                    proof {
                        relax_keeps_entries(self, s, start, goal, current, current_g, neighbor);
                        assert(view_of(open@, g_score@, came_from@) == relaxed(
                            self,
                            s,
                            current,
                            current_g,
                            neighbor,
                            goal,
                        ));
                        assert forall|j: int| 0 <= j < i + 1 implies g_score@.contains_key(
                            key(self, #[trigger] neighbors@[j]),
                        ) && g_score@[key(self, neighbors@[j])] <= current_g + 1 by {
                            if j < i {
                                assert(self.open_at(neighbors@[j]));
                                assert(s.g.contains_key(key(self, neighbors@[j])));
                            }
                        }
                    }
                }
                i += 1;
            }
            proof {
                expanded_is_settled(self, view_of(open@, g_score@, came_from@), current);
            }
        }
        proof {
            nothing_left_means_unreachable(
                self,
                view_of(open@, g_score@, came_from@),
                start,
                goal,
            );
            assert forall|other: Seq<Vector2>| !#[trigger] is_path(self, other, start, goal) by {}
        }
        Vec::new()
    }
}

} // verus!
