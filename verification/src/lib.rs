//! Core of a snake game on a toroidal grid: grid geometry, an A* pathfinder
//! over the grid with the snake body as obstacles, a look-ahead safety check,
//! an autoplay decision policy, and the tick-driven game state machine.

pub mod game;
pub mod grid;
pub mod pathfinder;
