# dungeon_core

The game logic of Dungeon Run, a tile-based arcade game, as a Verus-verified
library, with the playable macroquad front end in `app/`.

- `src/grid.rs` — tiles, positions, the floor tiles of a grid, grid generation
  (`grid_from_draws` lays out the dungeon for one obstacle draw per interior
  cell; `generate_grid` makes the draws).
- `src/paths.rs` — walks, breadth-first search, and the next-step table
  (`PathMap`): for every floor tile and every tile it reaches, the first step of
  the first shortest walk there (directions ranked right, left, down, up).
- `src/spawn.rs` — placing skeletons, the player and coins.
- `src/game.rs` — difficulty presets, the world state, skeleton moves, `tick`,
  and starting a round (`new_game` draws the level, `new_game_on` starts on a
  given one).
- `src/menu.rs` — the screens (main menu, difficulty choice, playing, paused,
  game over) and `menu_step`, which decides each frame from the keys pressed
  what screen comes next and what the front end should do.
- `src/random.rs` — the seedable `rand::rngs::StdRng` and the three draws the
  game makes from it; their contracts are the only trusted statements.

Times are kept in nanoseconds (`u128`), the skeleton speed as the interval
between two skeleton moves.

The next-step table is a `Vec` with one slot per board tile (index `y * 20 + x`),
each holding either nothing (not a floor tile) or the row of that source, again
one slot per target tile. The board is fixed at 20 by 12, so the tile number is
a dense key; the contracts speak of the table through `PathMap::route`, the
entry for a source and a target.
