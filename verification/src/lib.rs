//! Core game logic for Dungeon Run: the dungeon grid, level generation,
//! shortest-path tables for the skeletons, the per-tick world update, and
//! the flow between menus, play, pause and game over.
//!
//! Nothing in here draws or reads input; every function is a plain
//! computation on the world state, so the whole game can run headless.

pub mod game;
pub mod grid;
pub mod menu;
pub mod paths;
pub mod random;
pub mod spawn;

pub use game::{
    easy, hard, medium, move_skeletons, new_game, new_game_on, occupant, tick,
    DifficultyParameters, Game, Input, Occupant,
};
pub use grid::{generate_grid, get_floor_tiles, grid_from_draws, Pos, TileType, GRID_HEIGHT, GRID_WIDTH};
pub use menu::{button_labels, menu_step, round_over, Screen, UiAction};
pub use paths::PathMap;
pub use spawn::{generate_coins, generate_skeletons, spawn_player, MIN_DISTANCE};
