//! A* shortest-path search over the toroidal grid.
//!
//! The search treats a given sequence of cells (the snake body) as blocked,
//! except that the start and the goal themselves are never blocked.  The
//! result is either a concrete path, which is proved valid, or `None`, which
//! is proved to mean that no valid path exists at all.

use vstd::prelude::*;
use crate::grid::{
    cell_index, contains_pos, in_grid, is_step, lemma_cell_index_bounds,
    lemma_cell_index_injective, lemma_distinct_in_grid_len, lemma_step_in_grid, lemma_step_ne,
    manhattan_dist, neighbors_of, step_pos, Direction, GamePosition,
};

verus! {

/// A cell the search may not enter: an obstacle cell other than the two
/// endpoints of the search.
pub open spec fn blocked(
    p: GamePosition,
    start: GamePosition,
    goal: GamePosition,
    obs: Seq<GamePosition>,
) -> bool {
    obs.contains(p) && p != start && p != goal
}

/// A valid route from `start` to `goal`: it begins at `start`, ends at
/// `goal`, stays on the grid, takes single toroidal steps, and never enters
/// a blocked cell.
pub open spec fn path_ok(
    path: Seq<GamePosition>,
    start: GamePosition,
    goal: GamePosition,
    obs: Seq<GamePosition>,
    n: int,
) -> bool {
    &&& path.len() >= 1
    &&& path[0] == start
    &&& path[path.len() - 1] == goal
    &&& (forall|i: int| 0 <= i < path.len() ==> in_grid(#[trigger] path[i], n))
    &&& (forall|i: int| 0 <= i < path.len() ==> !blocked(#[trigger] path[i], start, goal, obs))
    &&& (forall|i: int| 0 <= i < path.len() - 1 ==> is_step(#[trigger] path[i], path[i + 1], n))
}

/// Some valid route from `start` to `goal` exists.
pub open spec fn reachable(
    start: GamePosition,
    goal: GamePosition,
    obs: Seq<GamePosition>,
    n: int,
) -> bool {
    exists|path: Seq<GamePosition>| path_ok(path, start, goal, obs, n)
}

/// From any cell of a valid route, the rest of the route is long enough to
/// cover the toroidal distance to the goal.
proof fn lemma_route_covers_dist(
    path: Seq<GamePosition>,
    i: int,
    start: GamePosition,
    goal: GamePosition,
    obs: Seq<GamePosition>,
    n: int,
)
    requires
        path_ok(path, start, goal, obs, n),
        0 <= i < path.len(),
        2 <= n <= 1000,
    ensures
        crate::grid::toroidal_dist(path[i], goal, n) <= path.len() - 1 - i,
    decreases path.len() - i,
{
    if i < path.len() - 1 {
        lemma_route_covers_dist(path, i + 1, start, goal, obs, n);
        let d = choose|d: Direction| step_pos(path[i], d, n) == path[i + 1];
        crate::grid::lemma_toroidal_dist_step(path[i], d, goal, n);
    }
}

/// A route between two cells cannot be shorter than their toroidal
/// distance: each step changes the wrap-aware distance to the goal by at
/// most one.  Since every path the search returns is a valid route, this
/// bounds the search's results from below.
pub proof fn lemma_path_len_at_least_toroidal(
    path: Seq<GamePosition>,
    start: GamePosition,
    goal: GamePosition,
    obs: Seq<GamePosition>,
    n: int,
)
    requires
        path_ok(path, start, goal, obs, n),
        2 <= n <= 1000,
    ensures
        path.len() >= crate::grid::toroidal_dist(start, goal, n) + 1,
{
    lemma_route_covers_dist(path, 0, start, goal, obs, n);
}

/// An entry of the search frontier: a cell together with its accumulated
/// cost `g_cost`, its heuristic cost `h_cost`, and the cell it was reached
/// from.
#[derive(Clone, Copy)]
pub struct AStarNode {
    pub position: GamePosition,
    pub g_cost: i32,
    pub h_cost: i32,
    pub parent: Option<GamePosition>,
}

/// The priority of a frontier entry; lower is expanded earlier.
pub open spec fn prio(nd: AStarNode) -> int {
    nd.g_cost + nd.h_cost
}

/// The cell `p` occurs in the frontier.
pub open spec fn in_open(open: Seq<AStarNode>, p: GamePosition) -> bool {
    exists|k: int| 0 <= k < open.len() && open[k].position == p
}

/// The cell `p` has been expanded.
pub open spec fn is_closed(closed: Seq<bool>, p: GamePosition, n: int) -> bool {
    closed[cell_index(p, n)]
}

/// Every frontier entry lies on the grid and has a recorded cost.
pub open spec fn open_ok(open: Seq<AStarNode>, g: Seq<i32>, n: int) -> bool {
    forall|k: int|
        0 <= k < open.len() ==> in_grid((#[trigger] open[k]).position, n)
            && g[cell_index(open[k].position, n)] < i32::MAX
}

/// A neighbor of an expanded cell is accounted for: it is blocked, already
/// expanded, or waiting on the frontier.
pub open spec fn target_ok(
    closed: Seq<bool>,
    open: Seq<AStarNode>,
    q: GamePosition,
    start: GamePosition,
    goal: GamePosition,
    obs: Seq<GamePosition>,
    n: int,
) -> bool {
    blocked(q, start, goal, obs) || is_closed(closed, q, n) || in_open(open, q)
}

/// All four neighbors of `p` are accounted for.
pub open spec fn expanded_ok(
    closed: Seq<bool>,
    open: Seq<AStarNode>,
    p: GamePosition,
    start: GamePosition,
    goal: GamePosition,
    obs: Seq<GamePosition>,
    n: int,
) -> bool {
    &&& target_ok(closed, open, step_pos(p, Direction::Up, n), start, goal, obs, n)
    &&& target_ok(closed, open, step_pos(p, Direction::Down, n), start, goal, obs, n)
    &&& target_ok(closed, open, step_pos(p, Direction::Left, n), start, goal, obs, n)
    &&& target_ok(closed, open, step_pos(p, Direction::Right, n), start, goal, obs, n)
}

/// Every expanded cell has all its neighbors accounted for.
pub open spec fn frontier_ok(
    closed: Seq<bool>,
    open: Seq<AStarNode>,
    start: GamePosition,
    goal: GamePosition,
    obs: Seq<GamePosition>,
    n: int,
) -> bool {
    forall|p: GamePosition|
        in_grid(p, n) && is_closed(closed, p, n) ==> #[trigger] expanded_ok(
            closed,
            open,
            p,
            start,
            goal,
            obs,
            n,
        )
}

/// The cost and predecessor records of one cell are consistent: costs are
/// non-negative; a cell with a recorded cost is the start or has a
/// predecessor; a predecessor lies one step before its cell, the cell is not
/// blocked, and costs strictly decrease towards the start.
pub open spec fn cell_ok(
    g: Seq<i32>,
    parent: Seq<Option<GamePosition>>,
    p: GamePosition,
    start: GamePosition,
    goal: GamePosition,
    obs: Seq<GamePosition>,
    n: int,
) -> bool {
    &&& 0 <= g[cell_index(p, n)]
    &&& (g[cell_index(p, n)] < i32::MAX ==> p == start || parent[cell_index(p, n)] is Some)
    &&& match parent[cell_index(p, n)] {
        Some(q) => {
            &&& in_grid(q, n)
            &&& is_step(q, p, n)
            &&& !blocked(p, start, goal, obs)
            &&& g[cell_index(q, n)] < g[cell_index(p, n)]
            &&& g[cell_index(p, n)] < i32::MAX
        },
        None => true,
    }
}

/// The records of every grid cell are consistent.
pub open spec fn cells_ok(
    g: Seq<i32>,
    parent: Seq<Option<GamePosition>>,
    start: GamePosition,
    goal: GamePosition,
    obs: Seq<GamePosition>,
    n: int,
) -> bool {
    forall|p: GamePosition|
        in_grid(p, n) ==> #[trigger] cell_ok(g, parent, p, start, goal, obs, n)
}

/// Every cell with a recorded cost is expanded or on the frontier.
pub open spec fn known_ok(
    g: Seq<i32>,
    closed: Seq<bool>,
    open: Seq<AStarNode>,
    n: int,
) -> bool {
    forall|p: GamePosition|
        in_grid(p, n) && g[#[trigger] cell_index(p, n)] < i32::MAX ==> is_closed(closed, p, n)
            || in_open(open, p)
}

/// The number of `false` entries of a sequence of flags.
pub open spec fn num_false(s: Seq<bool>) -> nat
    decreases s.len(),
{
    if s.len() == 0 {
        0
    } else {
        num_false(s.drop_last()) + if s.last() { 0nat } else { 1nat }
    }
}

/// The number of cells the search has expanded.
pub open spec fn closed_count(s: Seq<bool>) -> int {
    s.len() - num_false(s)
}

/// Every recorded cost is at most the number of expanded cells: a cost is
/// only ever recorded as one more than the cost of a cell being expanded.
pub open spec fn g_bounded(g: Seq<i32>, closed: Seq<bool>, n: int) -> bool {
    forall|p: GamePosition|
        in_grid(p, n) && g[#[trigger] cell_index(p, n)] < i32::MAX ==> g[cell_index(p, n)]
            <= closed_count(closed)
}

/// The count of `false` entries never exceeds the length.
pub proof fn lemma_num_false_le_len(s: Seq<bool>)
    ensures
        num_false(s) <= s.len(),
    decreases s.len(),
{
    if s.len() > 0 {
        lemma_num_false_le_len(s.drop_last());
    }
}

/// In a sequence of `false` entries, all entries count.
pub proof fn lemma_num_false_all_false(s: Seq<bool>)
    requires
        forall|i: int| 0 <= i < s.len() ==> !s[i],
    ensures
        num_false(s) == s.len(),
    decreases s.len(),
{
    if s.len() > 0 {
        lemma_num_false_all_false(s.drop_last());
    }
}

/// Setting a `false` entry to `true` lowers the count of `false` entries.
pub proof fn lemma_num_false_set(s: Seq<bool>, i: int)
    requires
        0 <= i < s.len(),
        !s[i],
    ensures
        num_false(s.update(i, true)) + 1 == num_false(s),
    decreases s.len(),
{
    let t = s.update(i, true);
    if i == s.len() - 1 {
        assert(t.drop_last() =~= s.drop_last());
    } else {
        assert(t.drop_last() =~= s.drop_last().update(i, true));
        lemma_num_false_set(s.drop_last(), i);
    }
}

/// A fresh vector holding `len` copies of `value`.
fn filled<T: Copy>(value: T, len: usize) -> (r: Vec<T>)
    ensures
        r@.len() == len,
        forall|i: int| 0 <= i < len ==> r@[i] == value,
{
    let mut r: Vec<T> = Vec::new();
    let mut i: usize = 0;
    while i < len
        invariant
            i <= len,
            r@.len() == i,
            forall|k: int| 0 <= k < i ==> r@[k] == value,
        decreases len - i,
    {
        r.push(value);
        i += 1;
    }
    r
}

/// The row-major index of a grid cell, as executable code.
fn cell_idx(p: GamePosition, n: i32) -> (r: usize)
    requires
        1 <= n <= 1000,
        in_grid(p, n as int),
    ensures
        r == cell_index(p, n as int),
        cell_index(p, n as int) < (n as int) * (n as int),
{
    proof {
        lemma_cell_index_bounds(p, n as int);
        assert(n * n <= 1000 * 1000) by (nonlinear_arith)
            requires
                1 <= n <= 1000,
        ;
    }
    (p.y * n + p.x) as usize
}

/// Removes and returns an entry of least priority from the frontier.
fn pop_min(open: &mut Vec<AStarNode>) -> (nd: AStarNode)
    requires
        old(open)@.len() > 0,
    ensures
        final(open)@.len() == old(open)@.len() - 1,
        exists|k: int| 0 <= k < old(open)@.len() && old(open)@[k] == nd,
        forall|k: int| 0 <= k < old(open)@.len() ==> prio(nd) <= prio(#[trigger] old(open)@[k]),
        forall|q: GamePosition| in_open(final(open)@, q) ==> in_open(old(open)@, q),
        forall|q: GamePosition|
            in_open(old(open)@, q) ==> in_open(final(open)@, q) || q == nd.position,
{
    let mut best: usize = 0;
    let mut i: usize = 1;
    while i < open.len()
        invariant
            open@.len() > 0,
            best < i <= open@.len(),
            forall|k: int| 0 <= k < i ==> prio(open@[best as int]) <= prio(#[trigger] open@[k]),
        decreases open@.len() - i,
    {
        let ci = open[i].g_cost as i64 + open[i].h_cost as i64;
        let cb = open[best].g_cost as i64 + open[best].h_cost as i64;
        if ci < cb {
            best = i;
        }
        i += 1;
    }
    let ghost s0 = open@;
    let ghost bi = best as int;
    let nd = open.swap_remove(best);
    proof {
        let s1 = open@;
        assert forall|q: GamePosition| in_open(s1, q) implies in_open(s0, q) by {
            let k = choose|k: int| 0 <= k < s1.len() && s1[k].position == q;
            if k == bi {
                assert(s0[s0.len() - 1].position == q);
            } else {
                assert(s0[k].position == q);
            }
        }
        assert forall|q: GamePosition| in_open(s0, q) && q != nd.position implies in_open(
            s1,
            q,
        ) by {
            let k = choose|k: int| 0 <= k < s0.len() && s0[k].position == q;
            if k == bi {
                assert(false);
            } else if k == s0.len() - 1 {
                assert(s1[bi].position == q);
            } else {
                assert(s1[k].position == q);
            }
        }
    }
    nd
}

/// Along a valid path, once the search has expanded the start and the
/// frontier is empty, every cell of the path has been expanded.
proof fn lemma_closed_along_path(
    closed: Seq<bool>,
    open: Seq<AStarNode>,
    path: Seq<GamePosition>,
    i: int,
    start: GamePosition,
    goal: GamePosition,
    obs: Seq<GamePosition>,
    n: int,
)
    requires
        path_ok(path, start, goal, obs, n),
        frontier_ok(closed, open, start, goal, obs, n),
        open.len() == 0,
        is_closed(closed, start, n),
        0 <= i < path.len(),
    ensures
        is_closed(closed, path[i], n),
    decreases i,
{
    if i > 0 {
        lemma_closed_along_path(closed, open, path, i - 1, start, goal, obs, n);
        let p = path[i - 1];
        let q = path[i];
        assert(is_step(p, q, n));
        let d = choose|d: Direction| step_pos(p, d, n) == q;
        assert(expanded_ok(closed, open, p, start, goal, obs, n));
        match d {
            Direction::Up => assert(target_ok(closed, open, q, start, goal, obs, n)),
            Direction::Down => assert(target_ok(closed, open, q, start, goal, obs, n)),
            Direction::Left => assert(target_ok(closed, open, q, start, goal, obs, n)),
            Direction::Right => assert(target_ok(closed, open, q, start, goal, obs, n)),
        }
    }
}

/// A* search from `start` to `goal` on the `grid_size` by `grid_size` torus,
/// with the cells of `obstacles` (except `start` and `goal` themselves)
/// blocked.
///
/// Returns a valid path on success.  Returns `None` exactly when no valid
/// path exists.  When `start == goal` the result is the one-cell path.
#[verifier::loop_isolation(false)]
#[verifier::rlimit(60)]
pub fn find_path(
    grid_size: i32,
    start: GamePosition,
    goal: GamePosition,
    obstacles: &Vec<GamePosition>,
) -> (r: Option<Vec<GamePosition>>)
    requires
        4 <= grid_size <= 1000,
        in_grid(start, grid_size as int),
        in_grid(goal, grid_size as int),
    ensures
        match r {
            Some(path) => path_ok(path@, start, goal, obstacles@, grid_size as int)
                && path@.no_duplicates() && path@.len() <= (grid_size as int) * (grid_size
                as int) && reachable(start, goal, obstacles@, grid_size as int) && (start
                == goal ==> path@ =~= seq![start]),
            None => !reachable(start, goal, obstacles@, grid_size as int),
        },
        start == goal ==> r is Some,
{
    let n = grid_size;
    let ghost ni = n as int;
    proof {
        assert(16 <= n * n <= 1000 * 1000) by (nonlinear_arith)
            requires
                4 <= n <= 1000,
        ;
    }
    let total: usize = (n * n) as usize;
    proof {
        assert(total == ni * ni);
    }
    let mut closed: Vec<bool> = filled(false, total);
    let mut g_score: Vec<i32> = filled(i32::MAX, total);
    let mut parent: Vec<Option<GamePosition>> = filled(None, total);
    let mut open: Vec<AStarNode> = Vec::new();

    let si = cell_idx(start, n);
    g_score[si] = 0;
    let h0 = manhattan_dist(start, goal);
    open.push(AStarNode { position: start, g_cost: 0, h_cost: h0, parent: None });

    proof {
        assert(in_open(open@, start)) by {
            assert(open@[0].position == start);
        }
        assert forall|p: GamePosition| in_grid(p, ni) implies #[trigger] cell_ok(
            g_score@,
            parent@,
            p,
            start,
            goal,
            obstacles@,
            ni,
        ) by {
            lemma_cell_index_bounds(p, ni);
            if p != start {
                lemma_cell_index_injective(p, start, ni);
            }
        }
        assert forall|p: GamePosition|
            in_grid(p, ni) && g_score@[#[trigger] cell_index(p, ni)] < i32::MAX implies is_closed(
            closed@,
            p,
            ni,
        ) || in_open(open@, p) by {
            lemma_cell_index_bounds(p, ni);
            if p != start {
                lemma_cell_index_injective(p, start, ni);
            }
        }
        assert forall|p: GamePosition| in_grid(p, ni) implies !is_closed(closed@, p, ni) by {
            lemma_cell_index_bounds(p, ni);
        }
        lemma_cell_index_bounds(goal, ni);
        lemma_num_false_all_false(closed@);
        assert(closed_count(closed@) == 0);
        assert forall|p: GamePosition|
            in_grid(p, ni) && g_score@[#[trigger] cell_index(p, ni)] < i32::MAX
            implies g_score@[cell_index(p, ni)] <= closed_count(closed@) by {
            lemma_cell_index_bounds(p, ni);
            if p != start {
                lemma_cell_index_injective(p, start, ni);
            }
        }
    }

    while open.len() > 0
        invariant
            closed@.len() == total,
            g_score@.len() == total,
            parent@.len() == total,
            open_ok(open@, g_score@, ni),
            frontier_ok(closed@, open@, start, goal, obstacles@, ni),
            cells_ok(g_score@, parent@, start, goal, obstacles@, ni),
            known_ok(g_score@, closed@, open@, ni),
            g_bounded(g_score@, closed@, ni),
            closed_count(closed@) <= total,
            is_closed(closed@, start, ni) || in_open(open@, start),
            !is_closed(closed@, goal, ni),
            g_score@[cell_index(start, ni)] == 0,
            parent@[cell_index(start, ni)] is None,
        decreases num_false(closed@), open@.len(),
    {
        let ghost open_before = open@;
        let current = pop_min(&mut open);
        let ghost kw = choose|k: int| 0 <= k < open_before.len() && open_before[k] == current;
        proof {
            assert(in_grid(current.position, ni) && g_score@[cell_index(current.position, ni)]
                < i32::MAX) by {
                assert(open_before[kw] == current);
            }
            // Entries that survive the pop keep their recorded costs.
            assert forall|k: int| 0 <= k < open@.len() implies in_grid(
                (#[trigger] open@[k]).position,
                ni,
            ) && g_score@[cell_index(open@[k].position, ni)] < i32::MAX by {
                let q = open@[k].position;
                assert(in_open(open@, q));
                assert(in_open(open_before, q));
                let k0 = choose|k0: int| 0 <= k0 < open_before.len() && open_before[k0].position
                    == q;
                assert(open_before[k0] == open_before[k0]);
            }
        }

        if current.position == goal {
            // Reconstruct the route by walking the predecessor records back
            // to the start, then reverse it into start-to-goal order.
            let mut back: Vec<GamePosition> = Vec::new();
            let mut cur = current.position;
            back.push(cur);
            while parent[cell_idx(cur, n)].is_some()
                invariant
                    in_grid(cur, ni),
                    g_score@[cell_index(cur, ni)] < i32::MAX,
                    back@.len() >= 1,
                    back@[0] == goal,
                    back@.last() == cur,
                    back@.len() > 1 ==> parent@[cell_index(goal, ni)] is Some,
                    forall|i: int|
                        0 <= i < back@.len() ==> in_grid(#[trigger] back@[i], ni) && !blocked(
                            back@[i],
                            start,
                            goal,
                            obstacles@,
                        ),
                    forall|i: int|
                        0 <= i < back@.len() - 1 ==> is_step(
                            #[trigger] back@[i + 1],
                            back@[i],
                            ni,
                        ),
                    forall|i: int, j: int|
                        0 <= i < j < back@.len() ==> g_score@[cell_index(
                            #[trigger] back@[j],
                            ni,
                        )] < g_score@[cell_index(#[trigger] back@[i], ni)],
                decreases g_score@[cell_index(cur, ni)],
            {
                proof {
                    assert(cell_ok(g_score@, parent@, cur, start, goal, obstacles@, ni));
                }
                let q = parent[cell_idx(cur, n)].unwrap();
                proof {
                    assert(cell_ok(g_score@, parent@, q, start, goal, obstacles@, ni));
                    assert(!blocked(q, start, goal, obstacles@));
                }
                let ghost back0 = back@;
                back.push(q);
                proof {
                    // Costs keep falling strictly along the walk, so the
                    // new cell's cost lies below every earlier one.
                    assert(g_score@[cell_index(q, ni)] < g_score@[cell_index(cur, ni)]);
                    assert forall|i: int, j: int| 0 <= i < j < back@.len() implies g_score@[
                        cell_index(#[trigger] back@[j], ni)] < g_score@[cell_index(
                        #[trigger] back@[i],
                        ni,
                    )] by {
                        if j < back@.len() - 1 {
                            assert(back@[i] == back0[i] && back@[j] == back0[j]);
                        } else {
                            assert(back@[j] == q);
                            assert(back@[i] == back0[i]);
                            if i < back0.len() - 1 {
                                assert(g_score@[cell_index(back0[back0.len() - 1], ni)]
                                    < g_score@[cell_index(back0[i], ni)]);
                            }
                            assert(back0[back0.len() - 1] == cur);
                        }
                    }
                }
                cur = q;
            }
            proof {
                assert(cell_ok(g_score@, parent@, cur, start, goal, obstacles@, ni));
                assert(cur == start);
            }
            let mut path: Vec<GamePosition> = Vec::new();
            let mut i = back.len();
            while i > 0
                invariant
                    i <= back@.len(),
                    path@.len() == back@.len() - i,
                    forall|k: int|
                        0 <= k < path@.len() ==> #[trigger] path@[k] == back@[back@.len() - 1
                            - k],
                decreases i,
            {
                i -= 1;
                path.push(back[i]);
            }
            proof {
                let pl = path@.len() as int;
                assert(path@[0] == back@[pl - 1]);
                assert(path@[pl - 1] == back@[0]);
                assert forall|k: int| 0 <= k < pl - 1 implies is_step(
                    #[trigger] path@[k],
                    path@[k + 1],
                    ni,
                ) by {
                    assert(back@[(pl - 2 - k) + 1] == path@[k]);
                    assert(back@[pl - 2 - k] == path@[k + 1]);
                }
                if start == goal {
                    assert(back@.len() == 1);
                    assert(path@ =~= seq![start]);
                }
            }
            proof {
                // Strictly decreasing costs make the walked cells pairwise
                // distinct, and the reversal keeps them so; distinct cells
                // of the grid are at most the grid's cell count.
                assert forall|i: int, j: int|
                    0 <= i < back@.len() && 0 <= j < back@.len() && i != j implies back@[i]
                    != back@[j] by {
                    if back@[i] == back@[j] {
                        assert(g_score@[cell_index(back@[i], ni)] == g_score@[cell_index(
                            back@[j],
                            ni,
                        )]);
                    }
                }
                assert(back@.no_duplicates());
                let pl = path@.len() as int;
                assert forall|i: int, j: int|
                    0 <= i < pl && 0 <= j < pl && i != j implies path@[i] != path@[j] by {
                    assert(path@[i] == back@[pl - 1 - i]);
                    assert(path@[j] == back@[pl - 1 - j]);
                }
                assert(path@.no_duplicates());
                lemma_distinct_in_grid_len(path@, ni);
                assert(path_ok(path@, start, goal, obstacles@, ni));
                assert(reachable(start, goal, obstacles@, ni));
            }
            return Some(path);
        }

        let ghost cp = current.position;
        let ci = cell_idx(current.position, n);
        if closed[ci] {
            // A stale frontier entry for an already expanded cell: every
            // relaxation it could attempt was already tried with the same
            // cost when the cell was first expanded, so drop it.
            proof {
                assert(is_closed(closed@, cp, ni));
                assert forall|p: GamePosition|
                    in_grid(p, ni) && is_closed(closed@, p, ni) implies #[trigger] expanded_ok(
                    closed@,
                    open@,
                    p,
                    start,
                    goal,
                    obstacles@,
                    ni,
                ) by {
                    assert(expanded_ok(closed@, open_before, p, start, goal, obstacles@, ni));
                    assert forall|q: GamePosition|
                        target_ok(closed@, open_before, q, start, goal, obstacles@, ni)
                            implies target_ok(closed@, open@, q, start, goal, obstacles@, ni) by {
                        if in_open(open_before, q) && !in_open(open@, q) {
                            assert(q == cp);
                        }
                    }
                }
                assert forall|p: GamePosition|
                    in_grid(p, ni) && g_score@[#[trigger] cell_index(p, ni)] < i32::MAX
                    implies is_closed(closed@, p, ni) || in_open(open@, p) by {
                    if in_open(open_before, p) && !in_open(open@, p) {
                        assert(p == cp);
                    }
                }
            }
            continue;
        }

        let ghost closed_before = closed@;
        let ghost gcur = g_score@[cell_index(cp, ni)];
        closed[ci] = true;
        proof {
            lemma_num_false_set(closed_before, cell_index(cp, ni));
            lemma_cell_index_injective(cp, goal, ni);
            assert(!is_closed(closed@, goal, ni));
            assert(closed_count(closed@) == closed_count(closed_before) + 1);
            lemma_num_false_le_len(closed@);
            assert forall|p: GamePosition|
                in_grid(p, ni) && g_score@[#[trigger] cell_index(p, ni)] < i32::MAX
                implies g_score@[cell_index(p, ni)] <= closed_count(closed@) by {
                assert(g_score@[cell_index(p, ni)] <= closed_count(closed_before));
            }
            assert(gcur + 1 <= closed_count(closed@));
        }

        let ghost closed_now = closed@;
        proof {
            // Every previously expanded cell keeps its neighbors accounted
            // for: the popped entry's cell is the one now expanded.
            assert forall|p: GamePosition|
                in_grid(p, ni) && is_closed(closed_now, p, ni) && p != cp implies #[trigger] expanded_ok(
                closed_now,
                open@,
                p,
                start,
                goal,
                obstacles@,
                ni,
            ) by {
                lemma_cell_index_injective(p, cp, ni);
                lemma_cell_index_bounds(p, ni);
                assert(is_closed(closed_before, p, ni));
                assert(expanded_ok(closed_before, open_before, p, start, goal, obstacles@, ni));
                lemma_step_in_grid(p, Direction::Up, ni);
                lemma_step_in_grid(p, Direction::Down, ni);
                lemma_step_in_grid(p, Direction::Left, ni);
                lemma_step_in_grid(p, Direction::Right, ni);
                assert forall|q: GamePosition|
                    in_grid(q, ni) && target_ok(
                        closed_before,
                        open_before,
                        q,
                        start,
                        goal,
                        obstacles@,
                        ni,
                    ) implies target_ok(closed_now, open@, q, start, goal, obstacles@, ni) by {
                    lemma_cell_index_bounds(q, ni);
                    if in_open(open_before, q) && !in_open(open@, q) {
                        assert(q == cp);
                        assert(is_closed(closed_now, q, ni));
                    } else if is_closed(closed_before, q, ni) {
                        assert(is_closed(closed_now, q, ni));
                    }
                }
            }
            // Cells with a recorded cost stay accounted for.
            assert forall|p: GamePosition|
                in_grid(p, ni) && g_score@[#[trigger] cell_index(p, ni)] < i32::MAX
                implies is_closed(closed_now, p, ni) || in_open(open@, p) by {
                lemma_cell_index_bounds(p, ni);
                if p != cp {
                    lemma_cell_index_injective(p, cp, ni);
                    assert(is_closed(closed_before, p, ni) || in_open(open_before, p));
                }
            }
            if !(is_closed(closed_now, start, ni)) {
                assert(in_open(open_before, start));
                if start == cp {
                    lemma_cell_index_bounds(start, ni);
                    assert(is_closed(closed_now, start, ni));
                }
            }
            assert(cell_ok(g_score@, parent@, cp, start, goal, obstacles@, ni));
        }

        let neighbors = neighbors_of(current.position, n);
        let mut j: usize = 0;
        while j < 4
            invariant
                j <= 4,
                closed@.len() == total,
                g_score@.len() == total,
                parent@.len() == total,
                closed@ == closed_now,
                g_score@[cell_index(cp, ni)] == gcur,
                0 <= gcur,
                gcur + 1 <= closed_count(closed@),
                closed_count(closed@) <= total,
                g_bounded(g_score@, closed@, ni),
                is_closed(closed@, cp, ni),
                open_ok(open@, g_score@, ni),
                cells_ok(g_score@, parent@, start, goal, obstacles@, ni),
                known_ok(g_score@, closed@, open@, ni),
                is_closed(closed@, start, ni) || in_open(open@, start),
                g_score@[cell_index(start, ni)] == 0,
                parent@[cell_index(start, ni)] is None,
                forall|p: GamePosition|
                    in_grid(p, ni) && is_closed(closed@, p, ni) && p != cp
                        ==> #[trigger] expanded_ok(
                        closed@,
                        open@,
                        p,
                        start,
                        goal,
                        obstacles@,
                        ni,
                    ),
                j > 0 ==> target_ok(
                    closed@,
                    open@,
                    step_pos(cp, Direction::Up, ni),
                    start,
                    goal,
                    obstacles@,
                    ni,
                ),
                j > 1 ==> target_ok(
                    closed@,
                    open@,
                    step_pos(cp, Direction::Down, ni),
                    start,
                    goal,
                    obstacles@,
                    ni,
                ),
                j > 2 ==> target_ok(
                    closed@,
                    open@,
                    step_pos(cp, Direction::Left, ni),
                    start,
                    goal,
                    obstacles@,
                    ni,
                ),
                j > 3 ==> target_ok(
                    closed@,
                    open@,
                    step_pos(cp, Direction::Right, ni),
                    start,
                    goal,
                    obstacles@,
                    ni,
                ),
            decreases 4 - j,
        {
            let nbr = neighbors[j];
            let ghost dj = if j == 0 {
                Direction::Up
            } else if j == 1 {
                Direction::Down
            } else if j == 2 {
                Direction::Left
            } else {
                Direction::Right
            };
            proof {
                assert(nbr == step_pos(cp, dj, ni));
                lemma_step_in_grid(cp, dj, ni);
                lemma_step_ne(cp, dj, ni);
                lemma_cell_index_injective(nbr, cp, ni);
            }
            let nbi = cell_idx(nbr, n);
            if !closed[nbi] {
                let on_body = contains_pos(obstacles, nbr);
                let is_blocked = on_body && !(nbr == start) && !(nbr == goal);
                if !is_blocked {
                    let gc = g_score[ci];
                    let tentative = gc + 1;
                    if tentative < g_score[nbi] {
                        let ghost g0 = g_score@;
                        let ghost par0 = parent@;
                        let ghost open0 = open@;
                        parent[nbi] = Some(current.position);
                        g_score[nbi] = tentative;
                        let h = manhattan_dist(nbr, goal);
                        open.push(
                            AStarNode {
                                position: nbr,
                                g_cost: tentative,
                                h_cost: h,
                                parent: Some(current.position),
                            },
                        );
                        proof {
                            let g1 = g_score@;
                            let par1 = parent@;
                            let open1 = open@;
                            assert(in_open(open1, nbr)) by {
                                assert(open1[open1.len() - 1].position == nbr);
                            }
                            assert forall|q: GamePosition| in_open(open0, q) implies in_open(
                                open1,
                                q,
                            ) by {
                                let k = choose|k: int|
                                    0 <= k < open0.len() && open0[k].position == q;
                                assert(open1[k].position == q);
                            }
                            // Records of other cells are untouched; only the
                            // neighbor's cost fell, which keeps every strict
                            // decrease towards a predecessor intact.
                            assert forall|p: GamePosition| in_grid(p, ni) implies #[trigger] cell_ok(
                                g1,
                                par1,
                                p,
                                start,
                                goal,
                                obstacles@,
                                ni,
                            ) by {
                                lemma_cell_index_bounds(p, ni);
                                assert(cell_ok(g0, par0, p, start, goal, obstacles@, ni));
                                if p != nbr {
                                    lemma_cell_index_injective(p, nbr, ni);
                                    match par0[cell_index(p, ni)] {
                                        Some(q) => {
                                            lemma_cell_index_bounds(q, ni);
                                            if q != nbr {
                                                lemma_cell_index_injective(q, nbr, ni);
                                            }
                                        },
                                        None => {},
                                    }
                                } else {
                                    assert(step_pos(cp, dj, ni) == nbr);
                                    assert(is_step(cp, nbr, ni));
                                    assert(g1[cell_index(cp, ni)] == gcur);
                                    assert(tentative == gcur + 1);
                                    assert(tentative < i32::MAX);
                                    assert(par1[cell_index(nbr, ni)] == Some(cp));
                                    assert(g1[cell_index(nbr, ni)] == tentative);
                                    assert(in_grid(cp, ni));
                                    assert(!blocked(nbr, start, goal, obstacles@));
                                    if cp != start {
                                        lemma_cell_index_injective(cp, start, ni);
                                    }
                                }
                            }
                            assert forall|p: GamePosition|
                                in_grid(p, ni) && g1[#[trigger] cell_index(p, ni)] < i32::MAX
                                implies g1[cell_index(p, ni)] <= closed_count(closed@) by {
                                lemma_cell_index_bounds(p, ni);
                                if p != nbr {
                                    lemma_cell_index_injective(p, nbr, ni);
                                    assert(g0[cell_index(p, ni)] <= closed_count(closed@));
                                }
                            }
                            assert forall|p: GamePosition|
                                in_grid(p, ni) && g1[#[trigger] cell_index(p, ni)] < i32::MAX
                                implies is_closed(closed@, p, ni) || in_open(open1, p) by {
                                lemma_cell_index_bounds(p, ni);
                                if p != nbr {
                                    lemma_cell_index_injective(p, nbr, ni);
                                    assert(g0[cell_index(p, ni)] < i32::MAX);
                                }
                            }
                            assert forall|k: int| 0 <= k < open1.len() implies in_grid(
                                (#[trigger] open1[k]).position,
                                ni,
                            ) && g1[cell_index(open1[k].position, ni)] < i32::MAX by {
                                if k < open0.len() {
                                    assert(open0[k] == open1[k]);
                                    lemma_cell_index_bounds(open1[k].position, ni);
                                    if open1[k].position != nbr {
                                        lemma_cell_index_injective(open1[k].position, nbr, ni);
                                    }
                                } else {
                                    assert(open1[k].position == nbr);
                                    assert(g1[cell_index(nbr, ni)] == tentative);
                                    assert(tentative < i32::MAX);
                                }
                            }
                            assert forall|p: GamePosition|
                                in_grid(p, ni) && is_closed(closed@, p, ni) && p != cp
                                implies #[trigger] expanded_ok(
                                closed@,
                                open1,
                                p,
                                start,
                                goal,
                                obstacles@,
                                ni,
                            ) by {
                                assert(expanded_ok(closed@, open0, p, start, goal, obstacles@, ni));
                            }
                        }
                    }
                    proof {
                        assert(g_score@[cell_index(nbr, ni)] <= gcur + 1);
                    }
                }
            }
            proof {
                // Whichever branch ran, this neighbor is now accounted for.
                assert(target_ok(closed@, open@, step_pos(cp, dj, ni), start, goal, obstacles@, ni))
                    by {
                    if is_closed(closed@, nbr, ni) {
                    } else if blocked(nbr, start, goal, obstacles@) {
                    } else {
                        assert(g_score@[cell_index(nbr, ni)] <= gcur + 1);
                        assert(g_score@[cell_index(nbr, ni)] < i32::MAX);
                        assert(in_open(open@, nbr) || is_closed(closed@, nbr, ni));
                    }
                }
            }
            j += 1;
        }
        proof {
            assert(expanded_ok(closed@, open@, cp, start, goal, obstacles@, ni));
            assert forall|p: GamePosition|
                in_grid(p, ni) && is_closed(closed@, p, ni) implies #[trigger] expanded_ok(
                closed@,
                open@,
                p,
                start,
                goal,
                obstacles@,
                ni,
            ) by {
                if p != cp {
                }
            }
        }
    }

    proof {
        if reachable(start, goal, obstacles@, ni) {
            let path = choose|path: Seq<GamePosition>|
                path_ok(path, start, goal, obstacles@, ni);
            lemma_closed_along_path(
                closed@,
                open@,
                path,
                path.len() - 1,
                start,
                goal,
                obstacles@,
                ni,
            );
        }
        if start == goal {
            assert(path_ok(seq![start], start, goal, obstacles@, ni));
        }
    }
    None
}

} // verus!
