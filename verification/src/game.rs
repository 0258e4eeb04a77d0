//! The game state machine: snake body, food, score and flags, advanced one
//! tick at a time, with the autoplay decision policy on top of the
//! pathfinder.

use vstd::prelude::*;
use rand::Rng;
use crate::grid::{
    cell_index, contains_pos, dir_between, in_grid, is_step, lemma_dir_between_step,
    lemma_distinct_in_grid_len, lemma_step_in_grid, lemma_step_ne, manhattan, manhattan_dist,
    neighbors_of, opposite, step_pos, Direction, GamePosition,
};
use crate::pathfinder::{blocked, find_path, path_ok, reachable};

verus! {

/// The whole game state.  `snake` holds the body cells, head first, tail
/// last.
pub struct SnakeGame {
    pub snake: Vec<GamePosition>,
    pub food: GamePosition,
    pub direction: Direction,
    pub grid_size: i32,
    pub cell_size: i32,
    pub score: i32,
    pub high_score: i32,
    pub game_over: bool,
    pub game_paused: bool,
    pub game_running: bool,
    pub auto_mode: bool,
}

/// The last-resort heading: the first of Up, Down, Left, Right whose cell
/// one step from `head` is off the body, or `fallback` when all four are
/// occupied.
pub open spec fn first_free_direction(
    body: Seq<GamePosition>,
    head: GamePosition,
    fallback: Direction,
    n: int,
) -> Direction {
    if !body.contains(step_pos(head, Direction::Up, n)) {
        Direction::Up
    } else if !body.contains(step_pos(head, Direction::Down, n)) {
        Direction::Down
    } else if !body.contains(step_pos(head, Direction::Left, n)) {
        Direction::Left
    } else if !body.contains(step_pos(head, Direction::Right, n)) {
        Direction::Right
    } else {
        fallback
    }
}

/// `b` is `a` with at most the heading changed.
pub open spec fn same_except_direction(a: SnakeGame, b: SnakeGame) -> bool {
    &&& a.snake@ == b.snake@
    &&& a.food == b.food
    &&& a.grid_size == b.grid_size
    &&& a.cell_size == b.cell_size
    &&& a.score == b.score
    &&& a.high_score == b.high_score
    &&& a.game_over == b.game_over
    &&& a.game_paused == b.game_paused
    &&& a.game_running == b.game_running
    &&& a.auto_mode == b.auto_mode
}

impl SnakeGame {
    /// The grid side as a mathematical integer.
    pub open spec fn grid(self) -> int {
        self.grid_size as int
    }

    /// The head cell of the snake.
    pub open spec fn head(self) -> GamePosition {
        self.snake@[0]
    }

    /// The tail cell of the snake.
    pub open spec fn tail(self) -> GamePosition {
        self.snake@.last()
    }

    /// A tick does work only while the game is running, unpaused and not
    /// over.
    pub open spec fn active(self) -> bool {
        self.game_running && !self.game_paused && !self.game_over
    }

    /// Well-formedness of a game state: the grid side is moderate, the body
    /// has at least its spawn length, lies on the grid and never overlaps
    /// itself, the food lies on the grid and off the body (as long as the
    /// game can still be played), the score grows ten points for each cell
    /// of growth, and the high score is never below the score.
    pub open spec fn wf(self) -> bool {
        &&& 4 <= self.grid_size <= 1000
        &&& 3 <= self.snake@.len()
        &&& self.snake@.no_duplicates()
        &&& (forall|i: int|
            0 <= i < self.snake@.len() ==> in_grid(#[trigger] self.snake@[i], self.grid()))
        &&& in_grid(self.food, self.grid())
        &&& (self.game_over || !self.snake@.contains(self.food))
        &&& 0 <= self.score <= 10 * (self.snake@.len() - 3)
        &&& self.score <= self.high_score
    }

    /// The fixed startup state: a three-cell snake in the middle of a
    /// twenty-cell grid, heading up, food below-left, everything reset.
    pub fn new() -> (g: SnakeGame)
        ensures
            g.wf(),
            g.snake@ =~= seq![
                (GamePosition { x: 10, y: 10 }),
                (GamePosition { x: 10, y: 11 }),
                (GamePosition { x: 10, y: 12 }),
            ],
            g.food == (GamePosition { x: 5, y: 5 }),
            g.direction == Direction::Up,
            g.grid_size == 20,
            g.cell_size == 20,
            g.score == 0,
            g.high_score == 0,
            !g.game_over,
            !g.game_paused,
            !g.game_running,
            !g.auto_mode,
    {
        let mut snake: Vec<GamePosition> = Vec::new();
        snake.push(GamePosition { x: 10, y: 10 });
        snake.push(GamePosition { x: 10, y: 11 });
        snake.push(GamePosition { x: 10, y: 12 });
        let g = SnakeGame {
            snake,
            food: GamePosition { x: 5, y: 5 },
            direction: Direction::Up,
            grid_size: 20,
            cell_size: 20,
            score: 0,
            high_score: 0,
            game_over: false,
            game_paused: false,
            game_running: false,
            auto_mode: false,
        };
        proof {
            assert(g.snake@.no_duplicates());
            assert(!g.snake@.contains(g.food)) by {
                assert(forall|i: int| 0 <= i < 3 ==> g.snake@[i] != g.food);
            }
        }
        g
    }

    /// Returns the game to the startup state; only the high score survives.
    pub fn reset(&mut self)
        requires
            old(self).high_score >= 0,
        ensures
            final(self).wf(),
            final(self).snake@ =~= seq![
                (GamePosition { x: 10, y: 10 }),
                (GamePosition { x: 10, y: 11 }),
                (GamePosition { x: 10, y: 12 }),
            ],
            final(self).food == (GamePosition { x: 5, y: 5 }),
            final(self).direction == Direction::Up,
            final(self).grid_size == 20,
            final(self).cell_size == 20,
            final(self).score == 0,
            final(self).high_score == old(self).high_score,
            !final(self).game_over,
            !final(self).game_paused,
            !final(self).game_running,
            !final(self).auto_mode,
    {
        let mut snake: Vec<GamePosition> = Vec::new();
        snake.push(GamePosition { x: 10, y: 10 });
        snake.push(GamePosition { x: 10, y: 11 });
        snake.push(GamePosition { x: 10, y: 12 });
        self.snake = snake;
        self.food = GamePosition { x: 5, y: 5 };
        self.direction = Direction::Up;
        self.grid_size = 20;
        self.cell_size = 20;
        self.score = 0;
        self.game_over = false;
        self.game_paused = false;
        self.game_running = false;
        self.auto_mode = false;
        proof {
            assert(self.snake@.no_duplicates());
            assert(!self.snake@.contains(self.food)) by {
                assert(forall|i: int| 0 <= i < 3 ==> self.snake@[i] != self.food);
            }
        }
    }

    /// Flips the autoplay flag and changes nothing else.
    pub fn toggle_auto_mode(&mut self)
        ensures
            final(self).auto_mode == !old(self).auto_mode,
            final(self).snake@ == old(self).snake@,
            final(self).food == old(self).food,
            final(self).direction == old(self).direction,
            final(self).grid_size == old(self).grid_size,
            final(self).cell_size == old(self).cell_size,
            final(self).score == old(self).score,
            final(self).high_score == old(self).high_score,
            final(self).game_over == old(self).game_over,
            final(self).game_paused == old(self).game_paused,
            final(self).game_running == old(self).game_running,
            old(self).wf() ==> final(self).wf(),
    {
        self.auto_mode = !self.auto_mode;
    }

    /// Straight-line Manhattan distance between two cells of the grid; the
    /// pathfinder's heuristic.
    pub fn manhattan_distance(&self, pos1: GamePosition, pos2: GamePosition) -> (r: i32)
        requires
            self.wf(),
            in_grid(pos1, self.grid()),
            in_grid(pos2, self.grid()),
        ensures
            r == manhattan(pos1, pos2),
    {
        manhattan_dist(pos1, pos2)
    }

    /// The four cells one step from `pos`, in the fixed order Up, Down,
    /// Left, Right.
    pub fn get_neighbors(&self, pos: GamePosition) -> (r: Vec<GamePosition>)
        requires
            self.wf(),
            in_grid(pos, self.grid()),
        ensures
            r@.len() == 4,
            r@[0] == step_pos(pos, Direction::Up, self.grid()),
            r@[1] == step_pos(pos, Direction::Down, self.grid()),
            r@[2] == step_pos(pos, Direction::Left, self.grid()),
            r@[3] == step_pos(pos, Direction::Right, self.grid()),
            forall|i: int| 0 <= i < 4 ==> in_grid(#[trigger] r@[i], self.grid()),
    {
        neighbors_of(pos, self.grid_size)
    }

    /// Whether `pos` is off the given body.
    pub fn is_safe_position(&self, pos: GamePosition, snake_body: &Vec<GamePosition>) -> (r:
        bool)
        ensures
            r == !snake_body@.contains(pos),
    {
        !contains_pos(snake_body, pos)
    }

    /// A* search from `start` to `goal` with `snake_body` as obstacles; see
    /// the pathfinder for the full statement.
    pub fn find_path(
        &self,
        start: GamePosition,
        goal: GamePosition,
        snake_body: &Vec<GamePosition>,
    ) -> (r: Option<Vec<GamePosition>>)
        requires
            self.wf(),
            in_grid(start, self.grid()),
            in_grid(goal, self.grid()),
        ensures
            match r {
                Some(path) => path_ok(path@, start, goal, snake_body@, self.grid())
                    && path@.no_duplicates() && path@.len() <= self.grid() * self.grid()
                    && reachable(start, goal, snake_body@, self.grid()) && (start == goal
                    ==> path@ =~= seq![start]),
                None => !reachable(start, goal, snake_body@, self.grid()),
            },
            start == goal ==> r is Some,
    {
        find_path(self.grid_size, start, goal, snake_body)
    }

    /// Look-ahead safety check: after hypothetically eating the food (the
    /// food cell prepended to the body, nothing removed), is the tail of
    /// that longer body unreachable from the food cell?
    pub fn will_get_trapped_after_eating(&self) -> (r: bool)
        requires
            self.wf(),
            !self.game_over,
        ensures
            r == !reachable(self.food, self.tail(), seq![self.food] + self.snake@, self.grid()),
    {
        let mut simulated_snake = clone_positions(&self.snake);
        simulated_snake.insert(0, self.food);
        proof {
            assert(simulated_snake@ =~= seq![self.food] + self.snake@);
        }
        let tail = simulated_snake[simulated_snake.len() - 1];
        let path_to_tail = self.find_path(self.food, tail, &simulated_snake);
        proof {
            assert(tail == self.tail());
            match path_to_tail {
                Some(ref p) => {
                    assert(reachable(self.food, tail, simulated_snake@, self.grid())) by {
                        assert(path_ok(p@, self.food, tail, simulated_snake@, self.grid()));
                    }
                },
                None => {},
            }
        }
        path_to_tail.is_none()
    }

    /// The heading from `from` towards `to`, from the wrap-adjusted
    /// displacement.
    pub fn get_direction_to_position(&self, from: GamePosition, to: GamePosition) -> (r:
        Direction)
        requires
            self.wf(),
            in_grid(from, self.grid()),
            in_grid(to, self.grid()),
        ensures
            r == dir_between(from, to, self.grid()),
    {
        let n = self.grid_size;
        let dx = to.x - from.x;
        let dy = to.y - from.y;
        let abs_dx = if dx >= 0 {
            dx
        } else {
            -dx
        };
        let abs_dy = if dy >= 0 {
            dy
        } else {
            -dy
        };
        let adjusted_dx = if abs_dx > n / 2 {
            if dx > 0 {
                dx - n
            } else {
                dx + n
            }
        } else {
            dx
        };
        let adjusted_dy = if abs_dy > n / 2 {
            if dy > 0 {
                dy - n
            } else {
                dy + n
            }
        } else {
            dy
        };
        let abs_adx = if adjusted_dx >= 0 {
            adjusted_dx
        } else {
            -adjusted_dx
        };
        let abs_ady = if adjusted_dy >= 0 {
            adjusted_dy
        } else {
            -adjusted_dy
        };
        if abs_adx > abs_ady {
            if adjusted_dx > 0 {
                Direction::Right
            } else {
                Direction::Left
            }
        } else {
            if adjusted_dy > 0 {
                Direction::Down
            } else {
                Direction::Up
            }
        }
    }

    /// Applies a requested heading; a request for the exact opposite of the
    /// current heading is ignored, which forbids an instant reversal.
    pub fn change_direction(&mut self, new_direction: Direction)
        ensures
            same_except_direction(*old(self), *final(self)),
            final(self).direction == if new_direction == opposite(old(self).direction) {
                old(self).direction
            } else {
                new_direction
            },
            old(self).wf() ==> final(self).wf(),
    {
        match (self.direction, new_direction) {
            (Direction::Up, Direction::Down)
            | (Direction::Down, Direction::Up)
            | (Direction::Left, Direction::Right)
            | (Direction::Right, Direction::Left) => {},
            _ => {
                self.direction = new_direction;
            },
        }
    }
    /// Moves the food to a uniformly random cell chosen among the cells the
    /// body does not occupy.  When no cell is free the game is over instead:
    /// nothing can be eaten any more.
    #[verifier::loop_isolation(false)]
    pub fn generate_food(&mut self)
        requires
            4 <= old(self).grid_size <= 1000,
            old(self).snake@.no_duplicates(),
            forall|i: int|
                0 <= i < old(self).snake@.len() ==> in_grid(
                    #[trigger] old(self).snake@[i],
                    old(self).grid(),
                ),
        ensures
            final(self).snake@ == old(self).snake@,
            final(self).direction == old(self).direction,
            final(self).grid_size == old(self).grid_size,
            final(self).cell_size == old(self).cell_size,
            final(self).score == old(self).score,
            final(self).high_score == old(self).high_score,
            final(self).game_paused == old(self).game_paused,
            final(self).game_running == old(self).game_running,
            final(self).auto_mode == old(self).auto_mode,
            (in_grid(final(self).food, old(self).grid()) && !old(self).snake@.contains(
                final(self).food,
            ) && final(self).game_over == old(self).game_over) || (final(self).game_over
                && final(self).food == old(self).food),
            old(self).snake@.len() < old(self).grid() * old(self).grid() ==> (in_grid(
                final(self).food,
                old(self).grid(),
            ) && !old(self).snake@.contains(final(self).food) && final(self).game_over == old(
                self,
            ).game_over),
    {
        let n = self.grid_size;
        let ghost ni = n as int;
        proof {
            assert(16 <= n * n <= 1000 * 1000) by (nonlinear_arith)
                requires
                    4 <= n <= 1000,
            ;
        }
        let total: usize = (n * n) as usize;
        proof {
            assert(total == ni * ni);
        }
        let mut free_cells: Vec<GamePosition> = Vec::new();
        let ghost mut occ: Seq<GamePosition> = Seq::empty();
        let mut idx: usize = 0;
        while idx < total
            invariant
                idx <= total,
                free_cells@.len() + occ.len() == idx,
                forall|k: int|
                    0 <= k < free_cells@.len() ==> in_grid(#[trigger] free_cells@[k], ni)
                        && !self.snake@.contains(free_cells@[k]),
                forall|k: int|
                    0 <= k < occ.len() ==> in_grid(#[trigger] occ[k], ni) && self.snake@.contains(
                        occ[k],
                    ) && 0 <= cell_index(occ[k], ni) < idx,
                occ.no_duplicates(),
            decreases total - idx,
        {
            let xi = (idx as i32) % n;
            let yi = (idx as i32) / n;
            let p = GamePosition { x: xi, y: yi };
            proof {
                let ii = idx as int;
                vstd::arithmetic::div_mod::lemma_fundamental_div_mod(ii, ni);
                vstd::arithmetic::div_mod::lemma_mod_bound(ii, ni);
                if ii / ni >= ni {
                    vstd::arithmetic::mul::lemma_mul_inequality(ni, ii / ni, ni);
                    assert(false);
                }
                if ii / ni < 0 {
                    vstd::arithmetic::div_mod::lemma_div_pos_is_pos(ii, ni);
                    assert(false);
                }
                assert(xi == ii % ni);
                assert(yi == ii / ni);
                assert(0 <= yi < n);
                assert(yi * ni == ni * yi) by (nonlinear_arith);
                assert(cell_index(p, ni) == idx);
            }
            if contains_pos(&self.snake, p) {
                proof {
                    assert forall|k: int| 0 <= k < occ.len() implies occ[k] != p by {
                        assert(cell_index(occ[k], ni) < idx);
                    }
                    vstd::seq_lib::lemma_no_dup_in_concat(occ, seq![p]);
                    assert(occ.push(p) =~= occ + seq![p]);
                    occ = occ.push(p);
                }
            } else {
                free_cells.push(p);
            }
            idx += 1;
        }
        if free_cells.len() == 0 {
            proof {
                if self.snake@.len() < ni * ni {
                    // With a free cell missing from the scan, the body holds
                    // one distinct cell per grid cell, which its length
                    // cannot afford.
                    assert(occ.len() == total);
                    occ.unique_seq_to_set();
                    self.snake@.unique_seq_to_set();
                    assert forall|q: GamePosition| occ.to_set().contains(q)
                        implies self.snake@.to_set().contains(q) by {
                        assert(occ.contains(q));
                        let k = choose|k: int| 0 <= k < occ.len() && occ[k] == q;
                        assert(self.snake@.contains(occ[k]));
                    }
                    vstd::set_lib::lemma_len_subset(occ.to_set(), self.snake@.to_set());
                    assert(false);
                }
            }
            self.game_over = true;
        } else {
            let k = random_below(free_cells.len());
            self.food = free_cells[k];
        }
    }

    /// The autoplay decision policy, run at the top of a tick.  In priority
    /// order: steer along a path to the food; if the food cannot be reached
    /// but eating would be safe, steer along the food path anyway; steer
    /// along a path to the own tail; take the first of Up, Down, Left,
    /// Right whose cell is off the body; otherwise leave the heading alone.
    ///
    /// Only the heading changes, and a changed heading never points at a
    /// body cell other than the tail.
    pub fn auto_move(&mut self)
        requires
            old(self).wf(),
        ensures
            final(self).wf(),
            same_except_direction(*old(self), *final(self)),
            !(old(self).auto_mode && old(self).active()) ==> final(self).direction == old(
                self,
            ).direction,
            final(self).direction != old(self).direction ==> (!old(self).snake@.contains(
                step_pos(old(self).head(), final(self).direction, old(self).grid()),
            ) || step_pos(old(self).head(), final(self).direction, old(self).grid()) == old(
                self,
            ).tail()),
            old(self).auto_mode && old(self).active() && reachable(
                old(self).head(),
                old(self).food,
                old(self).snake@,
                old(self).grid(),
            ) ==> !old(self).snake@.contains(
                step_pos(old(self).head(), final(self).direction, old(self).grid()),
            ),
            old(self).auto_mode && old(self).active() && reachable(
                old(self).head(),
                old(self).food,
                old(self).snake@,
                old(self).grid(),
            ) ==> (exists|p: Seq<GamePosition>|
                path_ok(p, old(self).head(), old(self).food, old(self).snake@, old(self).grid())
                    && p.no_duplicates() && p.len() > 1 && final(self).direction == dir_between(
                    old(self).head(),
                    p[1],
                    old(self).grid(),
                )),
            old(self).auto_mode && old(self).active() && !reachable(
                old(self).head(),
                old(self).food,
                old(self).snake@,
                old(self).grid(),
            ) && reachable(
                old(self).head(),
                old(self).tail(),
                old(self).snake@,
                old(self).grid(),
            ) ==> (exists|q: Seq<GamePosition>|
                path_ok(q, old(self).head(), old(self).tail(), old(self).snake@, old(self).grid())
                    && q.no_duplicates() && q.len() > 1 && final(self).direction == dir_between(
                    old(self).head(),
                    q[1],
                    old(self).grid(),
                )),
            old(self).auto_mode && old(self).active() && !reachable(
                old(self).head(),
                old(self).food,
                old(self).snake@,
                old(self).grid(),
            ) && !reachable(
                old(self).head(),
                old(self).tail(),
                old(self).snake@,
                old(self).grid(),
            ) ==> final(self).direction == first_free_direction(
                old(self).snake@,
                old(self).head(),
                old(self).direction,
                old(self).grid(),
            ),
    {
        if !self.auto_mode || self.game_over || self.game_paused || !self.game_running {
            return;
        }
        let ghost ni = self.grid_size as int;
        let head = self.snake[0];

        let path_to_food = self.find_path(head, self.food, &self.snake);

        if let Some(path) = &path_to_food {
            if path.len() > 1 {
                let next_pos = path[1];
                proof {
                    lemma_steer_target(path@, head, self.food, self.snake@, ni);
                }
                let new_direction = self.get_direction_to_position(head, next_pos);
                proof {
                    let d0 = choose|d: Direction| step_pos(head, d, ni) == path@[1];
                    lemma_dir_between_step(head, d0, ni);
                }
                self.direction = new_direction;
                proof {
                    // The returned route itself witnesses that the heading
                    // follows a route to the food.
                    assert(path_ok(path@, head, self.food, self.snake@, ni)
                        && path@.no_duplicates() && path@.len() > 1 && self.direction
                        == dir_between(head, path@[1], ni));
                    assert(reachable(head, self.food, self.snake@, ni));
                }
                return;
            }
        }

        proof {
            // Past this point the food is out of reach: had a route to it
            // existed, the search would have returned one of at least two
            // cells, and the branch above would have taken it.
            if reachable(head, self.food, self.snake@, ni) {
                match &path_to_food {
                    Some(p) => {
                        assert(path_ok(p@, head, self.food, self.snake@, ni));
                        assert(self.snake@.contains(head)) by {
                            assert(self.snake@[0] == head);
                        }
                        assert(p@.len() == 1);
                        assert(head == self.food);
                        assert(false);
                    },
                    None => {
                        assert(false);
                    },
                }
            }
        }

        if !self.will_get_trapped_after_eating() {
            // Eating is safe; take the food path when one was found.  The
            // step above already returned in that case, so this matches it
            // deliberately: the branch is kept as the policy states it.
            if let Some(path) = &path_to_food {
                if path.len() > 1 {
                    let next_pos = path[1];
                    proof {
                        // A found route contradicts the unreachability
                        // established above, so this arm can never run.
                        assert(path_ok(path@, head, self.food, self.snake@, ni));
                        assert(reachable(head, self.food, self.snake@, ni));
                        lemma_steer_target(path@, head, self.food, self.snake@, ni);
                    }
                    let new_direction = self.get_direction_to_position(head, next_pos);
                    proof {
                        let d0 = choose|d: Direction| step_pos(head, d, ni) == path@[1];
                        lemma_dir_between_step(head, d0, ni);
                    }
                    self.direction = new_direction;
                    return;
                }
            }
        }

        let tail = self.snake[self.snake.len() - 1];
        let path_to_tail = self.find_path(head, tail, &self.snake);

        if let Some(path) = &path_to_tail {
            if path.len() > 1 {
                let next_pos = path[1];
                proof {
                    lemma_steer_target(path@, head, tail, self.snake@, ni);
                }
                let new_direction = self.get_direction_to_position(head, next_pos);
                proof {
                    let d0 = choose|d: Direction| step_pos(head, d, ni) == path@[1];
                    lemma_dir_between_step(head, d0, ni);
                }
                self.direction = new_direction;
                proof {
                    // The returned route witnesses that the heading follows
                    // a route to the tail.
                    assert(path_ok(path@, head, tail, self.snake@, ni) && path@.no_duplicates()
                        && path@.len() > 1 && self.direction == dir_between(head, path@[1], ni));
                    assert(reachable(head, tail, self.snake@, ni));
                }
                return;
            }
        }

        proof {
            // Past this point the tail is out of reach as well: the head
            // and the tail are distinct cells of a body without repeats, so
            // a route between them would have had a second cell and the
            // branch above would have taken it.
            if reachable(head, tail, self.snake@, ni) {
                match &path_to_tail {
                    Some(p) => {
                        assert(path_ok(p@, head, tail, self.snake@, ni));
                        assert(p@.len() == 1);
                        assert(head == tail);
                        assert(self.snake@[0] != self.snake@[self.snake@.len() - 1]);
                        assert(false);
                    },
                    None => {
                        assert(false);
                    },
                }
            }
        }

        let candidates = self.get_neighbors(head);
        if !contains_pos(&self.snake, candidates[0]) {
            self.direction = Direction::Up;
            return;
        }
        if !contains_pos(&self.snake, candidates[1]) {
            self.direction = Direction::Down;
            return;
        }
        if !contains_pos(&self.snake, candidates[2]) {
            self.direction = Direction::Left;
            return;
        }
        if !contains_pos(&self.snake, candidates[3]) {
            self.direction = Direction::Right;
            return;
        }
    }

    /// How one active tick changes the state, over the heading `f.direction`
    /// that the tick in fact moved along: a step onto the body only ends the
    /// game; a step onto the food grows the body, scores ten and replaces
    /// the food; any other step advances the body and vacates the old tail
    /// cell.  When every neighbor of the head is on the body, the tick ends
    /// the game whatever the heading.
    pub open spec fn tick_step_rel(o: SnakeGame, f: SnakeGame) -> bool {
        let h = step_pos(o.head(), f.direction, o.grid());
        &&& (o.snake@.contains(h) ==> f.game_over && f.snake@ == o.snake@ && f.score == o.score
            && f.food == o.food && f.high_score == o.high_score)
        &&& (!o.snake@.contains(h) && h == o.food ==> {
            &&& f.snake@ == seq![h] + o.snake@
            &&& f.score == o.score + 10
            &&& f.high_score == (if o.high_score >= o.score + 10 { o.high_score as int } else { o.score + 10 })
            &&& (!f.game_over ==> in_grid(f.food, o.grid()) && !f.snake@.contains(f.food))
            &&& (o.snake@.len() + 1 < o.grid() * o.grid() ==> !f.game_over)
        })
        &&& (!o.snake@.contains(h) && h != o.food ==> {
            &&& f.snake@ == seq![h] + o.snake@.drop_last()
            &&& f.score == o.score
            &&& f.high_score == o.high_score
            &&& f.food == o.food
            &&& !f.game_over
        })
        &&& ((forall|dd: Direction| o.snake@.contains(step_pos(o.head(), dd, o.grid())))
            ==> f.game_over)
    }

    /// Advances the game one tick.  While the game is active: with autoplay
    /// on, the policy first picks the heading; the head then moves one
    /// wrapped step along the final heading.  A step onto the body ends the
    /// game with nothing else changed.  A step onto the food grows the body
    /// by the new head, scores ten points, raises the high score when
    /// passed, and moves the food to a random free cell.  Any other step
    /// moves the body: the new head comes in, the old tail cell is vacated.
    pub fn move_snake(&mut self)
        requires
            old(self).wf(),
        ensures
            final(self).wf(),
            final(self).grid_size == old(self).grid_size,
            final(self).cell_size == old(self).cell_size,
            final(self).auto_mode == old(self).auto_mode,
            final(self).game_running == old(self).game_running,
            final(self).game_paused == old(self).game_paused,
            final(self).high_score >= old(self).high_score,
            final(self).score >= old(self).score,
            !old(self).active() ==> *final(self) == *old(self),
            old(self).active() && !old(self).auto_mode ==> final(self).direction == old(self).direction,
            old(self).active() ==> Self::tick_step_rel(*old(self), *final(self)),
            old(self).active() && old(self).auto_mode && reachable(
                old(self).head(),
                old(self).food,
                old(self).snake@,
                old(self).grid(),
            ) ==> !old(self).snake@.contains(
                step_pos(old(self).head(), final(self).direction, old(self).grid()),
            ),
    {
        if self.game_over || self.game_paused || !self.game_running {
            return;
        }
        let ghost ni = self.grid_size as int;

        if self.auto_mode {
            self.auto_move();
        }

        let head = self.snake[0];
        let n = self.grid_size;
        let new_head = match self.direction {
            Direction::Up => GamePosition { x: head.x, y: (head.y - 1 + n) % n },
            Direction::Down => GamePosition { x: head.x, y: (head.y + 1) % n },
            Direction::Left => GamePosition { x: (head.x - 1 + n) % n, y: head.y },
            Direction::Right => GamePosition { x: (head.x + 1) % n, y: head.y },
        };
        proof {
            assert(new_head == step_pos(head, self.direction, ni));
            lemma_step_in_grid(head, self.direction, ni);
        }

        if contains_pos(&self.snake, new_head) {
            self.game_over = true;
            return;
        }

        let ghost snake0 = self.snake@;
        self.snake.insert(0, new_head);
        proof {
            assert(self.snake@ =~= seq![new_head] + snake0);
            vstd::seq_lib::lemma_no_dup_in_concat(seq![new_head], snake0);
            lemma_distinct_in_grid_len(self.snake@, ni);
            assert(ni * ni <= 1000 * 1000) by (nonlinear_arith)
                requires
                    4 <= ni <= 1000,
            ;
        }

        if new_head == self.food {
            self.score = self.score + 10;
            if self.score > self.high_score {
                self.high_score = self.score;
            }
            self.generate_food();
        } else {
            let _tail = self.snake.pop();
            proof {
                assert(self.snake@ =~= (seq![new_head] + snake0).drop_last());
                assert(self.snake@ =~= seq![new_head] + snake0.drop_last());
                assert forall|i: int| 0 <= i < self.snake@.len() implies in_grid(
                    #[trigger] self.snake@[i],
                    ni,
                ) by {
                    assert(self.snake@[i] == (seq![new_head] + snake0)[i]);
                }
                assert(self.snake@.no_duplicates()) by {
                    assert forall|i: int, j: int|
                        0 <= i < j < self.snake@.len() implies self.snake@[i] != self.snake@[j] by {
                        assert(self.snake@[i] == (seq![new_head] + snake0)[i]);
                        assert(self.snake@[j] == (seq![new_head] + snake0)[j]);
                    }
                }
                assert(!self.snake@.contains(self.food)) by {
                    if self.snake@.contains(self.food) {
                        let k = choose|k: int|
                            0 <= k < self.snake@.len() && self.snake@[k] == self.food;
                        assert((seq![new_head] + snake0)[k] == self.food);
                        if k == 0 {
                        } else {
                            assert(snake0[k - 1] == self.food);
                        }
                    }
                }
            }
        }
    }

    /// The body cells, head first, as a fresh vector.
    pub fn get_snake_positions_array(&self) -> (r: Vec<GamePosition>)
        ensures
            r@ == self.snake@,
    {
        clone_positions(&self.snake)
    }

    /// The food cell.
    pub fn get_food_position(&self) -> (r: GamePosition)
        ensures
            r == self.food,
    {
        self.food
    }
}

/// The second cell of a found path is one step from the start, and it is
/// off the obstacle cells unless it is the goal itself.
proof fn lemma_steer_target(
    path: Seq<GamePosition>,
    start: GamePosition,
    goal: GamePosition,
    obs: Seq<GamePosition>,
    n: int,
)
    requires
        path_ok(path, start, goal, obs, n),
        path.len() > 1,
        4 <= n <= 1000,
        in_grid(start, n),
    ensures
        is_step(start, path[1], n),
        path[1] != start,
        !obs.contains(path[1]) || path[1] == goal,
{
    assert(is_step(path[0], path[1], n));
    let d = choose|d: Direction| step_pos(path[0], d, n) == path[1];
    lemma_step_ne(start, d, n);
    assert(!blocked(path[1], start, goal, obs));
}

/// A copy of a vector of cells.
pub fn clone_positions(v: &Vec<GamePosition>) -> (r: Vec<GamePosition>)
    ensures
        r@ == v@,
{
    let mut r: Vec<GamePosition> = Vec::new();
    let mut i: usize = 0;
    while i < v.len()
        invariant
            i <= v@.len(),
            r@ == v@.subrange(0, i as int),
        decreases v@.len() - i,
    {
        r.push(v[i]);
        proof {
            assert(r@ =~= v@.subrange(0, i + 1));
        }
        i += 1;
    }
    proof {
        assert(r@ =~= v@);
    }
    r
}

/// Relies on `rand::thread_rng` and `rand::Rng::gen_range`: a uniformly
/// random integer drawn from `[0, n)`; panics only on an empty range.
#[verifier::external_body]
fn random_below(n: usize) -> (r: usize)
    requires
        1 <= n,
    ensures
        r < n,
{
    rand::thread_rng().gen_range(0..n)
}

} // verus!
