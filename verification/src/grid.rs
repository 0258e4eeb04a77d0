//! Geometry of the toroidal grid: positions, directions, wrap-around steps,
//! and the displacement-to-direction rule used by the autoplay policy.

use vstd::prelude::*;
use vstd::arithmetic::div_mod::{lemma_mod_multiples_vanish, lemma_small_mod};
use vstd::math::abs;

verus! {

/// One of the four movement headings on the grid.
#[derive(Clone, Copy, Debug, PartialEq, Eq, Structural)]
pub enum Direction {
    Up,
    Down,
    Left,
    Right,
}

/// A cell of the grid, identified by its column `x` and row `y`.
#[derive(Clone, Copy, Debug, PartialEq, Eq, Structural)]
pub struct GamePosition {
    pub x: i32,
    pub y: i32,
}

/// The heading that would undo `d` in a single step.
pub open spec fn opposite(d: Direction) -> Direction {
    match d {
        Direction::Up => Direction::Down,
        Direction::Down => Direction::Up,
        Direction::Left => Direction::Right,
        Direction::Right => Direction::Left,
    }
}

/// `p` lies on the `n` by `n` grid.
pub open spec fn in_grid(p: GamePosition, n: int) -> bool {
    &&& 0 <= p.x < n
    &&& 0 <= p.y < n
}

/// The coordinate one step towards larger values, wrapping at the edge.
pub open spec fn wrap_inc(c: int, n: int) -> int {
    (c + 1) % n
}

/// The coordinate one step towards smaller values, wrapping at the edge.
pub open spec fn wrap_dec(c: int, n: int) -> int {
    (c - 1 + n) % n
}

/// The cell reached from `p` by one step in direction `d` on the torus.
pub open spec fn step_pos(p: GamePosition, d: Direction, n: int) -> GamePosition {
    match d {
        Direction::Up => GamePosition { x: p.x, y: wrap_dec(p.y as int, n) as i32 },
        Direction::Down => GamePosition { x: p.x, y: wrap_inc(p.y as int, n) as i32 },
        Direction::Left => GamePosition { x: wrap_dec(p.x as int, n) as i32, y: p.y },
        Direction::Right => GamePosition { x: wrap_inc(p.x as int, n) as i32, y: p.y },
    }
}

/// `q` is one toroidal step away from `p` in some direction.
pub open spec fn is_step(p: GamePosition, q: GamePosition, n: int) -> bool {
    exists|d: Direction| step_pos(p, d, n) == q
}

/// Straight-line (non-toroidal) Manhattan distance, the search heuristic.
pub open spec fn manhattan(a: GamePosition, b: GamePosition) -> int {
    abs(a.x - b.x) + abs(a.y - b.y) as int
}

/// A displacement along one axis, folded to the shorter wrap-around
/// displacement when the raw difference exceeds half the grid size.
pub open spec fn axis_adjust(delta: int, n: int) -> int {
    if abs(delta) > n / 2 {
        if delta > 0 {
            delta - n
        } else {
            delta + n
        }
    } else {
        delta
    }
}

/// The heading chosen for the displacement from `from` to `to`: the axis with
/// the larger adjusted magnitude wins, and the vertical axis wins ties.
pub open spec fn dir_between(from: GamePosition, to: GamePosition, n: int) -> Direction {
    let adx = axis_adjust(to.x - from.x, n);
    let ady = axis_adjust(to.y - from.y, n);
    if abs(adx) > abs(ady) {
        if adx > 0 {
            Direction::Right
        } else {
            Direction::Left
        }
    } else {
        if ady > 0 {
            Direction::Down
        } else {
            Direction::Up
        }
    }
}

/// Distance between two values of one coordinate on the wrapping axis: the
/// plain difference or the way around the edge, whichever is shorter.
pub open spec fn axis_dist(u: int, v: int, n: int) -> int {
    let d = if u >= v {
        u - v
    } else {
        v - u
    };
    if d + d <= n {
        d
    } else {
        n - d
    }
}

/// Shortest hop count between two cells of the torus: the wrap-aware
/// distance summed over both axes.
pub open spec fn toroidal_dist(a: GamePosition, b: GamePosition, n: int) -> int {
    axis_dist(a.x as int, b.x as int, n) + axis_dist(a.y as int, b.y as int, n)
}

/// One wrapped step moves a coordinate by at most one unit of axis
/// distance.
pub proof fn lemma_axis_dist_step(c: int, v: int, n: int)
    requires
        0 <= c < n,
        0 <= v < n,
        2 <= n,
    ensures
        axis_dist(wrap_inc(c, n), v, n) >= axis_dist(c, v, n) - 1,
        axis_dist(wrap_dec(c, n), v, n) >= axis_dist(c, v, n) - 1,
{
    lemma_wrap_bounds(c, n);
}

/// One step on the torus lowers the toroidal distance to any cell by at
/// most one.
pub proof fn lemma_toroidal_dist_step(p: GamePosition, d: Direction, b: GamePosition, n: int)
    requires
        in_grid(p, n),
        in_grid(b, n),
        2 <= n <= 0x7fffffff,
    ensures
        toroidal_dist(step_pos(p, d, n), b, n) >= toroidal_dist(p, b, n) - 1,
{
    lemma_wrap_bounds(p.x as int, n);
    lemma_wrap_bounds(p.y as int, n);
    lemma_axis_dist_step(p.x as int, b.x as int, n);
    lemma_axis_dist_step(p.y as int, b.y as int, n);
}

/// The row-major index of a grid cell.
pub open spec fn cell_index(p: GamePosition, n: int) -> int {
    p.y * n + p.x
}

/// Wrapping a coordinate of the grid moves it by one and keeps it on the grid.
pub proof fn lemma_wrap_bounds(c: int, n: int)
    requires
        0 <= c < n,
        1 <= n,
    ensures
        wrap_inc(c, n) == if c + 1 < n { c + 1 } else { 0int },
        wrap_dec(c, n) == if c >= 1 { c - 1 } else { n - 1 },
{
    if c + 1 < n {
        lemma_small_mod((c + 1) as nat, n as nat);
    } else {
        lemma_mod_multiples_vanish(1, 0, n);
        lemma_small_mod(0nat, n as nat);
    }
    if c >= 1 {
        lemma_mod_multiples_vanish(1, c - 1, n);
        lemma_small_mod((c - 1) as nat, n as nat);
    } else {
        lemma_small_mod((n - 1) as nat, n as nat);
    }
}

/// A step stays on the grid.
pub proof fn lemma_step_in_grid(p: GamePosition, d: Direction, n: int)
    requires
        in_grid(p, n),
        1 <= n <= 0x7fffffff,
    ensures
        in_grid(step_pos(p, d, n), n),
{
    lemma_wrap_bounds(p.x as int, n);
    lemma_wrap_bounds(p.y as int, n);
}

/// On a grid with at least two cells per side, a step leaves the cell.
pub proof fn lemma_step_ne(p: GamePosition, d: Direction, n: int)
    requires
        in_grid(p, n),
        2 <= n <= 0x7fffffff,
    ensures
        step_pos(p, d, n) != p,
{
    lemma_wrap_bounds(p.x as int, n);
    lemma_wrap_bounds(p.y as int, n);
}

/// The displacement rule inverts a step: the heading recovered from the two
/// cells of a step is the heading that made the step.
pub proof fn lemma_dir_between_step(p: GamePosition, d: Direction, n: int)
    requires
        in_grid(p, n),
        4 <= n <= 0x7fffffff,
    ensures
        dir_between(p, step_pos(p, d, n), n) == d,
{
    lemma_wrap_bounds(p.x as int, n);
    lemma_wrap_bounds(p.y as int, n);
}

/// Row-major indices stay within the grid's cell count.
pub proof fn lemma_cell_index_bounds(p: GamePosition, n: int)
    by (nonlinear_arith)
    requires
        in_grid(p, n),
    ensures
        0 <= cell_index(p, n) < n * n,
{
}

/// Distinct grid cells have distinct row-major indices.
pub proof fn lemma_cell_index_injective(p: GamePosition, q: GamePosition, n: int)
    requires
        in_grid(p, n),
        in_grid(q, n),
    ensures
        p != q ==> cell_index(p, n) != cell_index(q, n),
{
    if cell_index(p, n) == cell_index(q, n) {
        assert(p.x == q.x && p.y == q.y) by (nonlinear_arith)
            requires
                0 <= p.x < n,
                0 <= p.y < n,
                0 <= q.x < n,
                0 <= q.y < n,
                p.y * n + p.x == q.y * n + q.x,
        ;
    }
}

/// Straight-line Manhattan distance between two cells of a grid with side
/// at most 1000, as executable code.
pub fn manhattan_dist(a: GamePosition, b: GamePosition) -> (r: i32)
    requires
        in_grid(a, 1000),
        in_grid(b, 1000),
    ensures
        r == manhattan(a, b),
{
    let dx = if a.x >= b.x {
        a.x - b.x
    } else {
        b.x - a.x
    };
    let dy = if a.y >= b.y {
        a.y - b.y
    } else {
        b.y - a.y
    };
    dx + dy
}

/// The four cells one step from `pos`, in the fixed order Up, Down, Left,
/// Right.
pub fn neighbors_of(pos: GamePosition, n: i32) -> (r: Vec<GamePosition>)
    requires
        1 <= n <= 1000,
        in_grid(pos, n as int),
    ensures
        r@.len() == 4,
        r@[0] == step_pos(pos, Direction::Up, n as int),
        r@[1] == step_pos(pos, Direction::Down, n as int),
        r@[2] == step_pos(pos, Direction::Left, n as int),
        r@[3] == step_pos(pos, Direction::Right, n as int),
        forall|i: int| 0 <= i < 4 ==> in_grid(#[trigger] r@[i], n as int),
{
    proof {
        lemma_step_in_grid(pos, Direction::Up, n as int);
        lemma_step_in_grid(pos, Direction::Down, n as int);
        lemma_step_in_grid(pos, Direction::Left, n as int);
        lemma_step_in_grid(pos, Direction::Right, n as int);
    }
    let mut r: Vec<GamePosition> = Vec::new();
    r.push(GamePosition { x: pos.x, y: (pos.y - 1 + n) % n });
    r.push(GamePosition { x: pos.x, y: (pos.y + 1) % n });
    r.push(GamePosition { x: (pos.x - 1 + n) % n, y: pos.y });
    r.push(GamePosition { x: (pos.x + 1) % n, y: pos.y });
    r
}

/// Whether `p` occurs in `v`.
pub fn contains_pos(v: &Vec<GamePosition>, p: GamePosition) -> (b: bool)
    ensures
        b == v@.contains(p),
{
    let mut i: usize = 0;
    while i < v.len()
        invariant
            i <= v@.len(),
            forall|k: int| 0 <= k < i ==> v@[k] != p,
        decreases v@.len() - i,
    {
        if v[i] == p {
            return true;
        }
        i += 1;
    }
    false
}

/// A sequence of distinct grid cells cannot outgrow the grid.
pub proof fn lemma_distinct_in_grid_len(s: Seq<GamePosition>, n: int)
    requires
        1 <= n,
        s.no_duplicates(),
        forall|i: int| 0 <= i < s.len() ==> in_grid(#[trigger] s[i], n),
    ensures
        s.len() <= n * n,
{
    let f = |p: GamePosition| cell_index(p, n);
    let t = s.map_values(f);
    assert forall|i: int, j: int| 0 <= i < t.len() && 0 <= j < t.len() && i != j
        implies t[i] != t[j] by {
        lemma_cell_index_injective(s[i], s[j], n);
    }
    assert(t.no_duplicates());
    t.unique_seq_to_set();
    assert forall|v: int| t.to_set().contains(v)
        implies vstd::set_lib::set_int_range(0, n * n).contains(v) by {
        let i = choose|i: int| 0 <= i < t.len() && t[i] == v;
        lemma_cell_index_bounds(s[i], n);
    }
    vstd::set_lib::lemma_int_range(0, n * n);
    vstd::set_lib::lemma_len_subset(t.to_set(), vstd::set_lib::set_int_range(0, n * n));
}

} // verus!
