use snake_game::game::SnakeGame;
use snake_game::grid::{Direction, GamePosition};

fn pos(x: i32, y: i32) -> GamePosition {
    GamePosition { x, y }
}

fn custom_game(
    snake: Vec<GamePosition>,
    food: GamePosition,
    direction: Direction,
    grid_size: i32,
) -> SnakeGame {
    SnakeGame {
        snake,
        food,
        direction,
        grid_size,
        cell_size: 20,
        score: 0,
        high_score: 0,
        game_over: false,
        game_paused: false,
        game_running: true,
        auto_mode: false,
    }
}

#[test]
fn initial_state() {
    let g = SnakeGame::new();
    assert_eq!(g.snake, vec![pos(10, 10), pos(10, 11), pos(10, 12)]);
    assert_eq!(g.food, pos(5, 5));
    assert_eq!(g.direction, Direction::Up);
    assert_eq!(g.grid_size, 20);
    assert_eq!(g.cell_size, 20);
    assert_eq!(g.score, 0);
    assert_eq!(g.high_score, 0);
    assert!(!g.game_over && !g.game_paused && !g.game_running && !g.auto_mode);
}

#[test]
fn tick_moves_head_up_and_vacates_tail() {
    let mut g = SnakeGame::new();
    g.game_running = true;
    g.move_snake();
    assert_eq!(g.snake, vec![pos(10, 9), pos(10, 10), pos(10, 11)]);
    assert_eq!(g.score, 0);
    assert_eq!(g.food, pos(5, 5));
    assert!(!g.game_over);
    // The vacated cell is exactly the previous tail.
    assert!(!g.snake.contains(&pos(10, 12)));
}

#[test]
fn opposite_direction_is_ignored() {
    let mut g = SnakeGame::new();
    g.change_direction(Direction::Down);
    assert_eq!(g.direction, Direction::Up);
}

#[test]
fn perpendicular_direction_applies() {
    let mut g = SnakeGame::new();
    g.change_direction(Direction::Left);
    assert_eq!(g.direction, Direction::Left);
    g.change_direction(Direction::Right);
    assert_eq!(g.direction, Direction::Left);
    g.change_direction(Direction::Down);
    assert_eq!(g.direction, Direction::Down);
}

#[test]
fn tick_is_a_no_op_until_started() {
    let mut g = SnakeGame::new();
    g.move_snake();
    assert_eq!(g.snake, vec![pos(10, 10), pos(10, 11), pos(10, 12)]);
    g.game_running = true;
    g.game_paused = true;
    g.move_snake();
    assert_eq!(g.snake, vec![pos(10, 10), pos(10, 11), pos(10, 12)]);
}

#[test]
fn eating_scores_ten_and_grows() {
    let mut g = custom_game(
        vec![pos(5, 6), pos(5, 7), pos(5, 8)],
        pos(5, 5),
        Direction::Up,
        20,
    );
    g.move_snake();
    assert_eq!(g.score, 10);
    assert_eq!(g.high_score, 10);
    assert_eq!(g.snake.len(), 4);
    assert_eq!(g.snake[0], pos(5, 5));
    assert!(!g.game_over);
    // The regenerated food is on the grid and off the longer body.
    assert!(g.food.x >= 0 && g.food.x < 20 && g.food.y >= 0 && g.food.y < 20);
    assert!(!g.snake.contains(&g.food));
}

#[test]
fn non_eating_move_keeps_length() {
    let mut g = custom_game(
        vec![pos(5, 6), pos(5, 7), pos(5, 8)],
        pos(0, 0),
        Direction::Up,
        20,
    );
    g.move_snake();
    assert_eq!(g.snake, vec![pos(5, 5), pos(5, 6), pos(5, 7)]);
    assert_eq!(g.score, 0);
}

#[test]
fn self_collision_ends_the_game() {
    // A hook shape: moving left runs into the body one step ahead.
    let mut g = custom_game(
        vec![pos(5, 5), pos(5, 6), pos(4, 6), pos(4, 5), pos(4, 4)],
        pos(0, 0),
        Direction::Left,
        20,
    );
    let before = g.snake.clone();
    g.move_snake();
    assert!(g.game_over);
    assert_eq!(g.snake, before);
    assert_eq!(g.score, 0);
}

#[test]
fn movement_wraps_at_the_edge() {
    let mut g = custom_game(
        vec![pos(0, 0), pos(0, 1), pos(0, 2)],
        pos(5, 5),
        Direction::Up,
        20,
    );
    g.move_snake();
    assert_eq!(g.snake[0], pos(0, 19));
}

#[test]
fn reset_preserves_only_the_high_score() {
    let mut g = custom_game(
        vec![pos(5, 6), pos(5, 7), pos(5, 8)],
        pos(5, 5),
        Direction::Up,
        20,
    );
    g.move_snake();
    assert_eq!(g.high_score, 10);
    g.reset();
    assert_eq!(g.snake, vec![pos(10, 10), pos(10, 11), pos(10, 12)]);
    assert_eq!(g.food, pos(5, 5));
    assert_eq!(g.direction, Direction::Up);
    assert_eq!(g.score, 0);
    assert_eq!(g.high_score, 10);
    assert!(!g.game_over && !g.game_paused && !g.game_running && !g.auto_mode);
}

#[test]
fn toggle_auto_mode_flips_the_flag() {
    let mut g = SnakeGame::new();
    assert!(!g.auto_mode);
    g.toggle_auto_mode();
    assert!(g.auto_mode);
    g.toggle_auto_mode();
    assert!(!g.auto_mode);
}

#[test]
fn regenerated_food_is_always_free_and_on_the_grid() {
    // Would fail if the random draw could fall outside the grid or if the
    // food could land on the body.
    for _ in 0..50 {
        let mut g = custom_game(
            vec![pos(5, 6), pos(5, 7), pos(5, 8)],
            pos(9, 9),
            Direction::Up,
            20,
        );
        g.generate_food();
        assert!(g.food.x >= 0 && g.food.x < 20 && g.food.y >= 0 && g.food.y < 20);
        assert!(!g.snake.contains(&g.food));
        assert!(!g.game_over);
    }
}

#[test]
fn manhattan_distance_is_not_wrap_aware() {
    let g = SnakeGame::new();
    assert_eq!(g.manhattan_distance(pos(1, 1), pos(4, 5)), 7);
    assert_eq!(g.manhattan_distance(pos(0, 0), pos(19, 0)), 19);
    assert_eq!(g.manhattan_distance(pos(3, 3), pos(3, 3)), 0);
}

#[test]
fn neighbors_come_in_fixed_order_and_wrap() {
    let g = SnakeGame::new();
    let r = g.get_neighbors(pos(0, 0));
    assert_eq!(r, vec![pos(0, 19), pos(0, 1), pos(19, 0), pos(1, 0)]);
    let r = g.get_neighbors(pos(19, 19));
    assert_eq!(r, vec![pos(19, 18), pos(19, 0), pos(18, 19), pos(0, 19)]);
}

#[test]
fn direction_between_adjacent_cells() {
    let g = SnakeGame::new();
    assert_eq!(g.get_direction_to_position(pos(5, 5), pos(5, 4)), Direction::Up);
    assert_eq!(g.get_direction_to_position(pos(5, 5), pos(5, 6)), Direction::Down);
    assert_eq!(g.get_direction_to_position(pos(5, 5), pos(4, 5)), Direction::Left);
    assert_eq!(g.get_direction_to_position(pos(5, 5), pos(6, 5)), Direction::Right);
    // Wrapped single steps.
    assert_eq!(g.get_direction_to_position(pos(0, 0), pos(19, 0)), Direction::Left);
    assert_eq!(g.get_direction_to_position(pos(0, 0), pos(0, 19)), Direction::Up);
    // A tie between the axes prefers the vertical move.
    assert_eq!(g.get_direction_to_position(pos(0, 0), pos(3, 3)), Direction::Down);
}

#[test]
fn is_safe_position_checks_the_body() {
    let g = SnakeGame::new();
    let body = vec![pos(1, 1), pos(1, 2)];
    assert!(g.is_safe_position(pos(0, 0), &body));
    assert!(!g.is_safe_position(pos(1, 2), &body));
}

#[test]
fn trapped_when_food_sits_in_a_sealed_pocket() {
    // The four neighbors of the food belong to the body, the tail is far
    // away: after eating there is no way out.
    let g = custom_game(
        vec![
            pos(0, 1),
            pos(1, 0),
            pos(0, 19),
            pos(19, 0),
            pos(10, 10),
            pos(10, 11),
        ],
        pos(0, 0),
        Direction::Up,
        20,
    );
    assert!(g.will_get_trapped_after_eating());
}

#[test]
fn not_trapped_on_an_open_grid() {
    let g = custom_game(
        vec![pos(10, 10), pos(10, 11), pos(10, 12)],
        pos(5, 5),
        Direction::Up,
        20,
    );
    assert!(!g.will_get_trapped_after_eating());
}

#[test]
fn autoplay_steers_towards_the_food() {
    let mut g = custom_game(
        vec![pos(5, 8), pos(5, 9), pos(5, 10)],
        pos(5, 5),
        Direction::Up,
        20,
    );
    g.auto_mode = true;
    g.move_snake();
    assert_eq!(g.snake[0], pos(5, 7));
    assert!(!g.game_over);
}

#[test]
fn autoplay_eats_eventually() {
    let mut g = SnakeGame::new();
    g.game_running = true;
    g.auto_mode = true;
    let mut ate = false;
    for _ in 0..500 {
        let before = g.score;
        g.move_snake();
        if g.score > before {
            ate = true;
            break;
        }
        if g.game_over {
            break;
        }
    }
    assert!(ate, "autoplay should reach the first food within 500 ticks");
}

#[test]
fn full_loop_with_no_exit_ends_on_the_next_tick() {
    // The body is a closed loop covering every cell of a five-cell grid
    // except the food, which the head cannot reach: whatever the policy
    // picks, the next step lands on the body and ends the game.
    let loop_cells = vec![
        pos(0, 0),
        pos(0, 4),
        pos(0, 3),
        pos(0, 2),
        pos(0, 1),
        pos(4, 1),
        pos(4, 0),
        pos(4, 4),
        pos(4, 3),
        pos(4, 2),
        pos(3, 2),
        pos(3, 1),
        pos(3, 0),
        pos(3, 4),
        pos(3, 3),
        pos(2, 3),
        pos(2, 4),
        pos(2, 0),
        pos(2, 1),
        pos(1, 1),
        pos(1, 2),
        pos(1, 3),
        pos(1, 4),
        pos(1, 0),
    ];
    let mut g = custom_game(loop_cells.clone(), pos(2, 2), Direction::Up, 5);
    g.auto_mode = true;
    g.move_snake();
    assert!(g.game_over);
    assert_eq!(g.snake, loop_cells);
    assert_eq!(g.score, 0);
}

#[test]
fn fallback_scans_up_first() {
    // The head sits in a two-cell pocket opening upward; neither the food
    // nor the tail can be reached, so the policy falls back to the first
    // free direction in the fixed order, which is Up here.
    let mut g = custom_game(
        vec![
            pos(0, 0),
            pos(0, 1),
            pos(19, 0),
            pos(1, 0),
            pos(19, 19),
            pos(1, 19),
            pos(0, 18),
            pos(5, 5),
        ],
        pos(10, 10),
        Direction::Down,
        20,
    );
    g.auto_mode = true;
    g.auto_move();
    assert_eq!(g.direction, Direction::Up);
}

#[test]
fn fallback_skips_occupied_up() {
    // The same pocket turned downward: Up is occupied, Down is the first
    // free direction.
    let mut g = custom_game(
        vec![
            pos(0, 0),
            pos(0, 19),
            pos(19, 0),
            pos(1, 0),
            pos(19, 1),
            pos(1, 1),
            pos(0, 2),
            pos(5, 5),
        ],
        pos(10, 10),
        Direction::Left,
        20,
    );
    g.auto_mode = true;
    g.auto_move();
    assert_eq!(g.direction, Direction::Down);
}

#[test]
fn snapshot_getters_report_the_state() {
    let g = SnakeGame::new();
    assert_eq!(g.get_snake_positions_array(), g.snake);
    assert_eq!(g.get_food_position(), pos(5, 5));
}
