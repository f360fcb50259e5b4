use dungeon_core::game::{
    easy, hard, medium, move_skeletons, new_game, new_game_on, occupant, tick,
    DifficultyParameters, Game, Input, Occupant, CLEAR_BOARD_BONUS, COIN_VALUE, TIMER,
};
use dungeon_core::grid::{
    generate_grid, get_floor_tiles, grid_from_draws, Pos, TileType, GRID_HEIGHT, GRID_WIDTH,
};
use dungeon_core::menu::{button_labels, menu_step, round_over, Screen, UiAction};
use dungeon_core::paths::{build_map, PathMap};
use dungeon_core::spawn::{
    generate_coins, generate_skeletons, manhattan_distance, spawn_player, COINS_PER_BOARD,
    MIN_DISTANCE,
};
use rand::rngs::StdRng;
use rand::SeedableRng;
use std::time::Duration;

const SECOND: u128 = 1_000_000_000;

/// A dungeon with walls round the edge, floor inside, and obstacles at `blocked`.
fn dungeon(blocked: &[Pos]) -> Vec<Vec<TileType>> {
    let mut grid = Vec::new();
    for y in 0..GRID_HEIGHT {
        let mut row = Vec::new();
        for x in 0..GRID_WIDTH {
            if x == 0 || y == 0 || x == GRID_WIDTH - 1 || y == GRID_HEIGHT - 1 {
                row.push(TileType::Wall);
            } else if blocked.contains(&(x, y)) {
                row.push(TileType::Obstacle);
            } else {
                row.push(TileType::Floor);
            }
        }
        grid.push(row);
    }
    grid
}

/// Every interior tile but those of row `y` from x = 1 to x = 18 blocked:
/// a single corridor.
fn corridor(y: u8) -> Vec<Vec<TileType>> {
    let mut blocked = Vec::new();
    for yy in 1..GRID_HEIGHT - 1 {
        for x in 1..GRID_WIDTH - 1 {
            if yy != y {
                blocked.push((x, yy));
            }
        }
    }
    dungeon(&blocked)
}

fn params(vision: u8, interval: u128) -> DifficultyParameters {
    DifficultyParameters { lives: 3, skeleton_count: 0, skeleton_move_interval: interval, vision }
}

fn game(
    grid: Vec<Vec<TileType>>,
    player: Pos,
    skeletons: Vec<Pos>,
    coins: Vec<Pos>,
    difficulty: DifficultyParameters,
) -> Game {
    let path_map = build_map(&grid);
    Game {
        difficulty,
        player_position: player,
        skeleton_positions: skeletons,
        skeleton_move_accumulator: 0,
        coin_positions: coins,
        lives_left: difficulty.lives,
        time_left: TIMER as u128 * SECOND,
        grid,
        score: 0,
        path_map,
    }
}

#[test]
fn floor_tiles_are_row_major_and_skip_excluded() {
    let grid = dungeon(&[(2, 1), (1, 2)]);
    let tiles = get_floor_tiles(&grid, &[(3, 1)]);
    assert_eq!(tiles.len(), 18 * 10 - 3);
    assert_eq!(tiles[0], (1, 1));
    assert_eq!(tiles[1], (4, 1));
    assert!(!tiles.contains(&(2, 1)));
    assert!(!tiles.contains(&(1, 2)));
    assert!(!tiles.contains(&(3, 1)));
    assert_eq!(*tiles.last().unwrap(), (18, 10));
}

#[test]
fn floor_tiles_of_a_corridor() {
    let grid = corridor(5);
    let tiles = get_floor_tiles(&grid, &[]);
    let expected: Vec<Pos> = (1..19).map(|x| (x, 5)).collect();
    assert_eq!(tiles, expected);
}

#[test]
fn generated_grid_has_walls_round_the_edge() {
    let mut rng = StdRng::seed_from_u64(7);
    let grid = generate_grid(&mut rng);
    assert_eq!(grid.len(), GRID_HEIGHT as usize);
    let mut obstacles = 0;
    for (y, row) in grid.iter().enumerate() {
        assert_eq!(row.len(), GRID_WIDTH as usize);
        for (x, tile) in row.iter().enumerate() {
            let edge = x == 0 || y == 0 || x == GRID_WIDTH as usize - 1 || y == GRID_HEIGHT as usize - 1;
            assert_eq!(*tile == TileType::Wall, edge);
            if *tile == TileType::Obstacle {
                obstacles += 1;
            }
        }
    }
    // one in ten of the 180 interior tiles, give or take
    assert!(obstacles > 0);
    assert!(obstacles < 60);
}

#[test]
fn path_map_steps_along_a_corridor() {
    let grid = corridor(4);
    let pm = build_map(&grid);
    assert!(pm.contains_source((1, 4)));
    assert!(!pm.contains_source((1, 3)));
    assert!(!pm.contains_source((0, 4)));
    assert_eq!(pm.get((1, 4), (9, 4)), Some((2, 4)));
    assert_eq!(pm.get((9, 4), (1, 4)), Some((8, 4)));
    assert_eq!(pm.get((5, 4), (6, 4)), Some((6, 4)));
    assert_eq!(pm.get((5, 4), (5, 4)), None);
    assert_eq!(pm.get((5, 4), (5, 5)), None);
    assert_eq!(pm.len_from((1, 4)), 17);
    assert!(pm.contains_route((1, 4), (18, 4)));
    assert!(!pm.contains_route((1, 4), (18, 5)));
}

#[test]
fn path_map_goes_round_an_obstacle() {
    // a wall across x = 5 with a single gap at y = 10
    let blocked: Vec<Pos> = (1..10).map(|y| (5, y)).collect();
    let grid = dungeon(&blocked);
    let pm: PathMap = build_map(&grid);
    // from (4, 1) to (6, 1) the shortest walk runs down to the gap
    assert_eq!(pm.get((4, 1), (6, 1)), Some((4, 2)));
    // from (4, 10) straight through the gap
    assert_eq!(pm.get((4, 10), (6, 10)), Some((5, 10)));
    // ties go to the direction searched first: right, left, down, up
    assert_eq!(pm.get((1, 1), (2, 2)), Some((2, 1)));
}

#[test]
fn unreachable_pocket_has_no_route() {
    // (1, 1) walled in by (2, 1) and (1, 2)
    let grid = dungeon(&[(2, 1), (1, 2)]);
    let pm = build_map(&grid);
    assert!(pm.contains_source((1, 1)));
    assert_eq!(pm.len_from((1, 1)), 0);
    assert!(!pm.contains_route((5, 5), (1, 1)));
    assert_eq!(pm.len_from((5, 5)), 18 * 10 - 3 - 1);
}

#[test]
fn skeletons_land_on_distinct_floor_tiles() {
    let grid = dungeon(&[(3, 3)]);
    let mut rng = StdRng::seed_from_u64(11);
    let skeletons = generate_skeletons(&grid, medium(), &mut rng);
    assert_eq!(skeletons.len(), 6);
    for (i, s) in skeletons.iter().enumerate() {
        assert_eq!(grid[s.1 as usize][s.0 as usize], TileType::Floor);
        assert!(!skeletons[i + 1..].contains(s));
    }
}

#[test]
fn fewer_skeletons_when_floor_is_short() {
    let grid = corridor(6);
    let mut rng = StdRng::seed_from_u64(3);
    let mut many = hard();
    many.skeleton_count = 40;
    let skeletons = generate_skeletons(&grid, many, &mut rng);
    assert_eq!(skeletons.len(), 18);
}

#[test]
fn coins_only_where_the_player_can_go() {
    // (1, 1) is a walled-in pocket
    let grid = dungeon(&[(2, 1), (1, 2)]);
    let pm = build_map(&grid);
    let skeletons = vec![(10, 5), (11, 5)];
    let player = (5, 5);
    for seed in 0..20 {
        let mut rng = StdRng::seed_from_u64(seed);
        let coins = generate_coins(&grid, &skeletons, &player, &mut rng, &pm);
        assert_eq!(coins.len(), COINS_PER_BOARD);
        for (i, c) in coins.iter().enumerate() {
            assert_ne!(*c, (1, 1));
            assert_ne!(*c, player);
            assert!(!skeletons.contains(c));
            assert!(pm.contains_route(player, *c));
            assert!(!coins[i + 1..].contains(c));
        }
    }
}

#[test]
fn coins_fill_a_small_region() {
    // the player's region is the corridor of row 2: 18 tiles, less the player and one skeleton
    let grid = corridor(2);
    let pm = build_map(&grid);
    let mut rng = StdRng::seed_from_u64(5);
    let coins = generate_coins(&grid, &[(3, 2)], &(1, 2), &mut rng, &pm);
    assert_eq!(coins.len(), 10);
    let grid = dungeon(&[(1, 2), (2, 2), (3, 1), (3, 2)]);
    let pm = build_map(&grid);
    // region {(1,1), (2,1)}: only one tile besides the player
    let coins = generate_coins(&grid, &[], &(1, 1), &mut rng, &pm);
    assert_eq!(coins, vec![(2, 1)]);
}

#[test]
fn player_spawns_away_from_skeletons() {
    let grid = dungeon(&[]);
    let skeletons = vec![(5, 5), (12, 7), (3, 9)];
    for seed in 0..20 {
        let mut rng = StdRng::seed_from_u64(seed);
        let p = spawn_player(&grid, &skeletons, &mut rng);
        assert_eq!(grid[p.1 as usize][p.0 as usize], TileType::Floor);
        for s in &skeletons {
            assert!(manhattan_distance(*s, p) >= MIN_DISTANCE as u16);
        }
    }
}

#[test]
fn crowded_spawn_falls_back_to_first_free_floor_tile() {
    // a corridor of row 3 packed with skeletons every other tile
    let grid = corridor(3);
    let skeletons: Vec<Pos> = (1..19).filter(|x| x % 2 == 0).map(|x| (x, 3)).collect();
    let mut rng = StdRng::seed_from_u64(1);
    assert_eq!(spawn_player(&grid, &skeletons, &mut rng), (1, 3));
}

#[test]
fn manhattan_distance_adds_both_axes() {
    assert_eq!(manhattan_distance((1, 1), (4, 5)), 7);
    assert_eq!(manhattan_distance((4, 5), (1, 1)), 7);
    assert_eq!(manhattan_distance((3, 3), (3, 3)), 0);
}

#[test]
fn skeleton_in_vision_chases_along_shortest_path() {
    let grid = corridor(5);
    let mut g = game(grid, (8, 5), vec![(4, 5)], vec![(15, 5)], params(4, SECOND));
    let mut rng = StdRng::seed_from_u64(0);
    move_skeletons(&mut g, (8, 5), &mut rng);
    assert_eq!(g.skeleton_positions, vec![(5, 5)]);
    // a skeleton right next to the player steps onto the player's tile
    move_skeletons(&mut g, (6, 5), &mut rng);
    assert_eq!(g.skeleton_positions, vec![(6, 5)]);
}

#[test]
fn skeleton_does_not_step_onto_another() {
    let grid = corridor(5);
    let mut g = game(grid, (8, 5), vec![(6, 5), (7, 5)], vec![(15, 5)], params(4, SECOND));
    let mut rng = StdRng::seed_from_u64(0);
    move_skeletons(&mut g, (8, 5), &mut rng);
    // the first waits behind the second, which then steps onto the player
    assert_eq!(g.skeleton_positions, vec![(6, 5), (8, 5)]);
}

#[test]
fn wandering_skeleton_stays_on_floor() {
    let grid = corridor(5);
    for seed in 0..20 {
        let mut g = game(grid.clone(), (18, 5), vec![(5, 5)], vec![(15, 5)], params(3, SECOND));
        let mut rng = StdRng::seed_from_u64(seed);
        move_skeletons(&mut g, (18, 5), &mut rng);
        let s = g.skeleton_positions[0];
        assert!(s == (4, 5) || s == (5, 5) || s == (6, 5));
    }
}

#[test]
fn tick_ends_round_when_time_runs_out() {
    let grid = dungeon(&[]);
    let mut g = game(grid, (5, 5), vec![], vec![(9, 9)], params(3, SECOND));
    g.time_left = 2 * SECOND;
    let mut rng = StdRng::seed_from_u64(0);
    assert!(tick(g, Input::Stay, 2 * SECOND, &mut rng).is_none());
}

#[test]
fn tick_counts_down_and_moves_player() {
    let grid = dungeon(&[(5, 4)]);
    let g = game(grid, (5, 5), vec![], vec![(9, 9)], params(3, SECOND));
    let mut rng = StdRng::seed_from_u64(0);
    let g = tick(g, Input::Right, SECOND / 4, &mut rng).unwrap();
    assert_eq!(g.player_position, (6, 5));
    assert_eq!(g.time_left, TIMER as u128 * SECOND - SECOND / 4);
    assert_eq!(g.skeleton_move_accumulator, SECOND / 4);
    // an obstacle blocks the way
    let g = tick(g, Input::Left, SECOND / 4, &mut rng).unwrap();
    assert_eq!(g.player_position, (5, 5));
    let g = tick(g, Input::Up, SECOND / 4, &mut rng).unwrap();
    assert_eq!(g.player_position, (5, 5));
    // the skeletons' clock runs out exactly, leaving nothing over
    let g = tick(g, Input::Down, SECOND / 4, &mut rng).unwrap();
    assert_eq!(g.player_position, (5, 6));
    assert_eq!(g.skeleton_move_accumulator, 0);
    // walls hold at the edge
    let mut g = g;
    g.player_position = (1, 1);
    let g = tick(g, Input::Left, 1, &mut rng).unwrap();
    assert_eq!(g.player_position, (1, 1));
}

#[test]
fn tick_collects_coin_and_refills_board() {
    let grid = dungeon(&[]);
    let g = game(grid, (5, 5), vec![], vec![(6, 5), (9, 9)], params(3, SECOND));
    let mut rng = StdRng::seed_from_u64(0);
    let g = tick(g, Input::Right, 1, &mut rng).unwrap();
    assert_eq!(g.score, COIN_VALUE);
    assert_eq!(g.coin_positions, vec![(9, 9)]);
    let mut g = g;
    g.player_position = (9, 8);
    let g = tick(g, Input::Down, 1, &mut rng).unwrap();
    assert_eq!(g.score, 2 * COIN_VALUE + CLEAR_BOARD_BONUS);
    assert_eq!(g.coin_positions.len(), COINS_PER_BOARD);
    assert!(!g.coin_positions.contains(&(9, 9)));
}

#[test]
fn skeleton_clock_keeps_the_time_over() {
    let grid = dungeon(&[]);
    let g = game(grid, (5, 5), vec![], vec![(9, 9)], params(3, SECOND));
    let mut rng = StdRng::seed_from_u64(0);
    let g = tick(g, Input::Stay, 3 * SECOND / 4, &mut rng).unwrap();
    assert_eq!(g.skeleton_move_accumulator, 3 * SECOND / 4);
    let g = tick(g, Input::Stay, 3 * SECOND / 4, &mut rng).unwrap();
    assert_eq!(g.skeleton_move_accumulator, SECOND / 2);
    let g = tick(g, Input::Stay, 3 * SECOND / 4, &mut rng).unwrap();
    assert_eq!(g.skeleton_move_accumulator, SECOND / 4);
    assert_eq!(g.time_left, TIMER as u128 * SECOND - 9 * SECOND / 4);
}

#[test]
fn empty_board_gets_fresh_coins_without_bonus() {
    let grid = dungeon(&[]);
    let g = game(grid, (5, 5), vec![], vec![], params(3, SECOND));
    let mut rng = StdRng::seed_from_u64(4);
    let g = tick(g, Input::Right, 1, &mut rng).unwrap();
    assert_eq!(g.player_position, (6, 5));
    assert_eq!(g.score, 0);
    assert_eq!(g.coin_positions.len(), COINS_PER_BOARD);
    assert!(!g.coin_positions.contains(&(6, 5)));
    let g = tick(g, Input::Stay, 1, &mut rng).unwrap();
    assert_eq!(g.score, 0);
}

#[test]
fn tick_plays_a_walled_off_coin() {
    // the column x = 2 is blocked, so the coin at (5, 5) is out of reach
    let blocked: Vec<Pos> = (1..GRID_HEIGHT - 1).map(|y| (2, y)).collect();
    let grid = dungeon(&blocked);
    let g = game(grid, (1, 1), vec![], vec![(5, 5)], easy());
    let mut rng = StdRng::seed_from_u64(0);
    let r = tick(g, Input::Right, 100_000_000, &mut rng).unwrap();
    assert_eq!(r.player_position, (1, 1));
    assert_eq!(r.score, 0);
    assert_eq!(r.lives_left, 5);
    assert_eq!(r.coin_positions, vec![(5, 5)]);
    assert!(r.skeleton_positions.is_empty());
    assert_eq!(r.time_left, 119_900_000_000);
    assert_eq!(r.skeleton_move_accumulator, 100_000_000);
}

#[test]
fn touching_a_skeleton_costs_a_life_and_respawns() {
    let grid = dungeon(&[]);
    let g = game(grid, (5, 5), vec![(6, 5)], vec![(15, 9)], params(0, 10 * SECOND));
    let mut rng = StdRng::seed_from_u64(2);
    let g = tick(g, Input::Right, 1, &mut rng).unwrap();
    assert_eq!(g.lives_left, 2);
    assert_ne!(g.player_position, (6, 5));
    assert!(manhattan_distance(g.player_position, (6, 5)) >= MIN_DISTANCE as u16);
    if g.coin_positions == vec![(15, 9)] {
        assert!(g.path_map.contains_route(g.player_position, (15, 9)));
        assert_eq!(g.score, 0);
    } else {
        assert_eq!(g.score, COIN_VALUE + CLEAR_BOARD_BONUS);
    }
}

#[test]
fn last_life_lost_ends_round() {
    let grid = dungeon(&[]);
    let mut g = game(grid, (5, 5), vec![(6, 5)], vec![(15, 9)], params(0, 10 * SECOND));
    g.lives_left = 1;
    let mut rng = StdRng::seed_from_u64(2);
    assert!(tick(g, Input::Right, 1, &mut rng).is_none());
}

#[test]
fn caught_with_nowhere_to_come_back_ends_round() {
    // a pocket {(1,1), (2,1), (3,1)}; every spawn tile far from the skeleton
    // lies outside it, so none reaches the coin
    let grid = dungeon(&[(4, 1), (1, 2), (2, 2), (3, 2)]);
    let g = game(grid, (1, 1), vec![(2, 1)], vec![(3, 1)], params(0, 10 * SECOND));
    let mut rng = StdRng::seed_from_u64(2);
    assert!(tick(g, Input::Right, 1, &mut rng).is_none());
}

#[test]
fn new_game_starts_a_fresh_round() {
    let mut rng = StdRng::seed_from_u64(42);
    let g = new_game(medium(), &mut rng).unwrap();
    assert_eq!(g.lives_left, 3);
    assert_eq!(g.score, 0);
    assert_eq!(g.time_left, 120 * SECOND);
    assert_eq!(g.skeleton_positions.len(), 6);
    assert!(!g.coin_positions.is_empty() && g.coin_positions.len() <= COINS_PER_BOARD);
    let p = g.player_position;
    assert_eq!(g.grid[p.1 as usize][p.0 as usize], TileType::Floor);
    assert!(g.path_map.len_from(p) >= 2);
    for c in &g.coin_positions {
        assert!(g.path_map.contains_route(p, *c));
    }
    for s in &g.skeleton_positions {
        assert!(manhattan_distance(*s, p) >= MIN_DISTANCE as u16);
    }
}

#[test]
fn new_game_on_starts_away_from_the_skeletons() {
    let grid = dungeon(&[]);
    let mut rng = StdRng::seed_from_u64(5);
    let g = new_game_on(easy(), grid.clone(), vec![(1, 1), (18, 10)], &mut rng).unwrap();
    assert_eq!(g.grid, grid);
    assert_eq!(g.skeleton_positions, vec![(1, 1), (18, 10)]);
    assert_eq!(g.lives_left, 5);
    assert_eq!(g.score, 0);
    assert_eq!(g.skeleton_move_accumulator, 0);
    assert_eq!(g.time_left, 120 * SECOND);
    assert!(manhattan_distance(g.player_position, (1, 1)) >= MIN_DISTANCE as u16);
    assert!(manhattan_distance(g.player_position, (18, 10)) >= MIN_DISTANCE as u16);
    assert_eq!(g.coin_positions.len(), COINS_PER_BOARD);
    assert!(!g.coin_positions.contains(&g.player_position));
    // two skeletons on one tile are taken as they are
    let g = new_game_on(easy(), grid, vec![(4, 4), (4, 4)], &mut rng).unwrap();
    assert_eq!(g.skeleton_positions, vec![(4, 4), (4, 4)]);
    assert!(manhattan_distance(g.player_position, (4, 4)) >= MIN_DISTANCE as u16);
}

#[test]
fn new_game_on_refuses_a_level_with_no_start() {
    // two floor tiles, each reaching only the other
    let mut blocked = Vec::new();
    for y in 1..GRID_HEIGHT - 1 {
        for x in 1..GRID_WIDTH - 1 {
            if !(y == 1 && (x == 1 || x == 2)) {
                blocked.push((x, y));
            }
        }
    }
    let grid = dungeon(&blocked);
    let mut rng = StdRng::seed_from_u64(5);
    assert!(new_game_on(easy(), grid, vec![], &mut rng).is_none());
    // a third tile in the corridor gives a start
    blocked.retain(|p| *p != (3, 1));
    let grid = dungeon(&blocked);
    let g = new_game_on(easy(), grid, vec![], &mut rng).unwrap();
    assert_eq!(g.path_map.len_from(g.player_position), 2);
    assert_eq!(g.coin_positions.len(), 2);
}

#[test]
fn same_seed_same_game() {
    let a = new_game(hard(), &mut StdRng::seed_from_u64(9)).unwrap();
    let b = new_game(hard(), &mut StdRng::seed_from_u64(9)).unwrap();
    assert_eq!(a.grid, b.grid);
    assert_eq!(a.player_position, b.player_position);
    assert_eq!(a.skeleton_positions, b.skeleton_positions);
    assert_eq!(a.coin_positions, b.coin_positions);
}

#[test]
fn a_played_round_stays_consistent() {
    let mut rng = StdRng::seed_from_u64(123);
    let mut g = new_game(easy(), &mut rng).unwrap();
    let inputs = [Input::Up, Input::Right, Input::Down, Input::Left, Input::Stay];
    for i in 0..400 {
        let score = g.score;
        let lives = g.lives_left;
        match tick(g, inputs[i % 5], SECOND / 8, &mut rng) {
            Some(next) => {
                g = next;
                assert!(g.score >= score);
                assert!(g.lives_left <= lives);
                let p = g.player_position;
                assert_eq!(g.grid[p.1 as usize][p.0 as usize], TileType::Floor);
                assert!(!g.skeleton_positions.contains(&p));
                assert!(!g.coin_positions.contains(&p));
                for c in &g.coin_positions {
                    assert!(g.path_map.contains_route(p, *c));
                }
            }
            None => return,
        }
    }
}

#[test]
fn difficulty_presets_match_the_table() {
    let e = easy();
    let m = medium();
    let h = hard();
    assert_eq!((e.lives, e.skeleton_count, e.vision), (5, 4, 3));
    assert_eq!((m.lives, m.skeleton_count, m.vision), (3, 6, 4));
    assert_eq!((h.lives, h.skeleton_count, h.vision), (2, 8, 5));
    assert_eq!(e.skeleton_move_interval, Duration::from_secs_f32(1.0 / 1.0f32).as_nanos());
    assert_eq!(m.skeleton_move_interval, Duration::from_secs_f32(1.0 / 1.25f32).as_nanos());
    assert_eq!(h.skeleton_move_interval, Duration::from_secs_f32(1.0 / 1.5f32).as_nanos());
}

#[test]
fn path_map_takes_the_first_shortest_walk() {
    let grid = dungeon(&[]);
    let pm = build_map(&grid);
    // right before down
    assert_eq!(pm.get((1, 1), (3, 3)), Some((2, 1)));
    // left before up
    assert_eq!(pm.get((3, 3), (1, 1)), Some((2, 3)));
    // straight down: the only shortest walk
    assert_eq!(pm.get((4, 2), (4, 9)), Some((4, 3)));
    // right before up
    assert_eq!(pm.get((2, 9), (6, 1)), Some((3, 9)));
    // left before down
    assert_eq!(pm.get((9, 1), (2, 8)), Some((8, 1)));
}

#[test]
fn grid_follows_its_draws() {
    // an obstacle wherever the rank is a multiple of 7
    let draws: Vec<bool> = (0..180).map(|k| k % 7 == 0).collect();
    let grid = grid_from_draws(&draws);
    assert_eq!(grid.len(), GRID_HEIGHT as usize);
    for y in 0..GRID_HEIGHT as usize {
        assert_eq!(grid[y].len(), GRID_WIDTH as usize);
        for x in 0..GRID_WIDTH as usize {
            let edge = x == 0 || y == 0 || x == GRID_WIDTH as usize - 1 || y == GRID_HEIGHT as usize - 1;
            let expected = if edge {
                TileType::Wall
            } else if draws[(y - 1) * 18 + (x - 1)] {
                TileType::Obstacle
            } else {
                TileType::Floor
            };
            assert_eq!(grid[y][x], expected);
        }
    }
    assert_eq!(grid[1][1], TileType::Obstacle);
    assert_eq!(grid[1][2], TileType::Floor);
    assert_eq!(grid[1][8], TileType::Obstacle);
    let none = grid_from_draws(&[false; 180]);
    assert_eq!(get_floor_tiles(&none, &[]).len(), 180);
}

#[test]
fn menus_move_within_their_buttons() {
    assert_eq!(menu_step(Screen::MainMenu, 0, Input::Up, false, false), (Screen::MainMenu, 0, UiAction::Idle));
    assert_eq!(menu_step(Screen::MainMenu, 0, Input::Down, false, false), (Screen::MainMenu, 1, UiAction::Idle));
    assert_eq!(menu_step(Screen::MainMenu, 1, Input::Down, false, false), (Screen::MainMenu, 1, UiAction::Idle));
    assert_eq!(
        menu_step(Screen::DifficultySelect, 2, Input::Down, false, false),
        (Screen::DifficultySelect, 3, UiAction::Idle)
    );
    assert_eq!(
        menu_step(Screen::DifficultySelect, 3, Input::Down, false, false),
        (Screen::DifficultySelect, 3, UiAction::Idle)
    );
    assert_eq!(menu_step(Screen::Paused, 1, Input::Left, false, true), (Screen::Paused, 1, UiAction::Idle));
    assert_eq!(button_labels(Screen::DifficultySelect), vec!["Easy", "Medium", "Hard", "Back"]);
    assert!(button_labels(Screen::Playing).is_empty());
    assert_eq!(button_labels(Screen::MainMenu), vec!["Play", "Exit"]);
    assert_eq!(button_labels(Screen::Paused), vec!["Resume", "Main Menu"]);
    assert_eq!(button_labels(Screen::GameOver(0)), vec!["Play Again", "Main Menu"]);
}

#[test]
fn enter_follows_the_highlighted_button() {
    assert_eq!(menu_step(Screen::MainMenu, 0, Input::Stay, true, false), (Screen::DifficultySelect, 0, UiAction::Idle));
    assert_eq!(menu_step(Screen::MainMenu, 0, Input::Down, true, false).2, UiAction::Exit);
    assert_eq!(
        menu_step(Screen::DifficultySelect, 0, Input::Stay, true, false),
        (Screen::Playing, 0, UiAction::StartRound(easy()))
    );
    assert_eq!(
        menu_step(Screen::DifficultySelect, 0, Input::Down, true, false),
        (Screen::Playing, 0, UiAction::StartRound(medium()))
    );
    assert_eq!(
        menu_step(Screen::DifficultySelect, 2, Input::Stay, true, false),
        (Screen::Playing, 0, UiAction::StartRound(hard()))
    );
    assert_eq!(menu_step(Screen::DifficultySelect, 3, Input::Stay, true, false), (Screen::MainMenu, 0, UiAction::Idle));
    assert_eq!(menu_step(Screen::Paused, 0, Input::Stay, true, false), (Screen::Playing, 0, UiAction::Idle));
    assert_eq!(menu_step(Screen::Paused, 1, Input::Stay, true, false), (Screen::MainMenu, 0, UiAction::Idle));
    assert_eq!(menu_step(Screen::GameOver(70), 0, Input::Stay, true, false), (Screen::Playing, 0, UiAction::Idle));
    assert_eq!(menu_step(Screen::GameOver(70), 0, Input::Down, true, false), (Screen::MainMenu, 0, UiAction::Idle));
}

#[test]
fn playing_ticks_until_paused_or_over() {
    assert_eq!(menu_step(Screen::Playing, 0, Input::Left, true, false), (Screen::Playing, 0, UiAction::Tick(Input::Left)));
    assert_eq!(menu_step(Screen::Playing, 0, Input::Left, false, true), (Screen::Paused, 0, UiAction::Idle));
    assert_eq!(round_over(130), Screen::GameOver(130));
}

#[test]
fn player_drawn_over_skeleton_over_coin() {
    let grid = dungeon(&[]);
    let g = game(grid, (5, 5), vec![(5, 5), (7, 7)], vec![(7, 7), (9, 9)], params(3, SECOND));
    assert_eq!(occupant(&g, (5, 5)), Occupant::Player);
    assert_eq!(occupant(&g, (7, 7)), Occupant::Skeleton);
    assert_eq!(occupant(&g, (9, 9)), Occupant::Coin);
    assert_eq!(occupant(&g, (2, 2)), Occupant::Empty);
}
