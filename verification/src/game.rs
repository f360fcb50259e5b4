//! The world state of one round, difficulty presets, and the per-tick
//! update.

use vstd::prelude::*;
use rand::rngs::StdRng;
use crate::grid::{
    contains_pos, covers_board, floor_tiles, generate_grid, get_floor_tiles, in_board, in_interior,
    is_dungeon, is_floor, keep, lemma_keep, tile_at, Pos, TileType,
};
use crate::paths::{
    build_map, can_step, first_step_of_shortest, is_path_map, lemma_reachable_symm, lemma_reachable_trans,
    lemma_route_count, lemma_step_reachable, reachable, two_others_reachable, PathMap,
};
use crate::random::pick_one;
use crate::spawn::{
    coins_generated, generate_coins, generate_skeletons, lemma_coin_choices, lemma_spawn_choices,
    manhattan, manhattan_distance, skeletons_drawn, spawn_candidates, spawn_choices, spawn_player,
};

verus! {

/// Everything that makes one difficulty harder than another. Passed in at
/// new-game time: difficulty is data, not branching logic.
#[derive(PartialEq, Eq, Structural, Clone, Copy, Debug)]
pub struct DifficultyParameters {
    pub lives: u8,
    pub skeleton_count: u8,
    /// Time between two skeleton moves, in nanoseconds: one over the
    /// skeleton speed in moves per second. Higher is slower.
    pub skeleton_move_interval: u128,
    /// How close (Manhattan) the player must be before a skeleton starts
    /// chasing.
    pub vision: u8,
}

/// The difficulty presets in menu order: easy, medium, hard.
pub open spec fn preset(index: int) -> DifficultyParameters {
    if index == 0 {
        DifficultyParameters {
            lives: 5,
            skeleton_count: 4,
            skeleton_move_interval: 1_000_000_000,
            vision: 3,
        }
    } else if index == 1 {
        DifficultyParameters {
            lives: 3,
            skeleton_count: 6,
            skeleton_move_interval: 800_000_012,
            vision: 4,
        }
    } else {
        DifficultyParameters {
            lives: 2,
            skeleton_count: 8,
            skeleton_move_interval: 666_666_687,
            vision: 5,
        }
    }
}

/// Easy: five lives, four slow skeletons (one move a second), vision 3.
pub fn easy() -> (d: DifficultyParameters)
    ensures
        d == preset(0),
        d.lives == 5,
        d.skeleton_count == 4,
        d.skeleton_move_interval == 1_000_000_000,
        d.vision == 3,
{
    DifficultyParameters {
        lives: 5,
        skeleton_count: 4,
        skeleton_move_interval: 1_000_000_000,
        vision: 3,
    }
}

/// Medium: three lives, six skeletons at 1.25 moves a second, vision 4.
pub fn medium() -> (d: DifficultyParameters)
    ensures
        d == preset(1),
        d.lives == 3,
        d.skeleton_count == 6,
        d.skeleton_move_interval == 800_000_012,
        d.vision == 4,
{
    DifficultyParameters {
        lives: 3,
        skeleton_count: 6,
        skeleton_move_interval: 800_000_012,
        vision: 4,
    }
}

/// Hard: two lives, eight fast skeletons at 1.5 moves a second, vision 5.
pub fn hard() -> (d: DifficultyParameters)
    ensures
        d == preset(2),
        d.lives == 2,
        d.skeleton_count == 8,
        d.skeleton_move_interval == 666_666_687,
        d.vision == 5,
{
    DifficultyParameters {
        lives: 2,
        skeleton_count: 8,
        skeleton_move_interval: 666_666_687,
        vision: 5,
    }
}

/// One player action for a single tick. `Stay` means stay put.
#[derive(PartialEq, Eq, Structural, Clone, Copy, Debug)]
pub enum Input {
    Up,
    Down,
    Left,
    Right,
    Stay,
}

/// The full world state for one round. `tick` takes this and hands back the
/// next.
pub struct Game {
    pub difficulty: DifficultyParameters,
    pub player_position: Pos,
    pub skeleton_positions: Vec<Pos>,
    /// Leftover time carried between frames, in nanoseconds, so skeletons
    /// step at a fixed rate no matter the frame rate.
    pub skeleton_move_accumulator: u128,
    pub coin_positions: Vec<Pos>,
    pub lives_left: u8,
    /// Time left in the round, in nanoseconds.
    pub time_left: u128,
    pub grid: Vec<Vec<TileType>>,
    pub score: usize,
    pub path_map: PathMap,
}

/// The four directions a wandering skeleton may take, in the order the
/// generator picks from: right, left, down, up.
pub open spec fn wander_dirs() -> Seq<(i8, i8)> {
    seq![(1i8, 0i8), (-1i8, 0i8), (0i8, 1i8), (0i8, -1i8)]
}

/// The tile one step from `p` in direction `d`.
pub open spec fn offset(p: Pos, d: (i8, i8)) -> Pos {
    ((p.0 + d.0) as u8, (p.1 + d.1) as u8)
}

/// Where one skeleton at `cur` goes, the others standing at `others`: within
/// `vision` of the player it takes the first step of a shortest path to the
/// player, unless that tile is held; otherwise it steps in direction `dir`
/// if that tile is free floor. Either way, if it cannot move it stays.
pub open spec fn skeleton_step(
    grid: Seq<Vec<TileType>>,
    path_map: PathMap,
    vision: u8,
    player: Pos,
    cur: Pos,
    others: Seq<Pos>,
    dir: (i8, i8),
) -> Pos {
    if manhattan(cur, player) <= vision {
        match path_map.route(cur, player) {
            Some(step) => if !others.contains(step) {
                step
            } else {
                cur
            },
            None => cur,
        }
    } else {
        let next = offset(cur, dir);
        if tile_at(grid, next) == TileType::Floor && !others.contains(next) {
            next
        } else {
            cur
        }
    }
}

/// The skeletons after the first `k` have moved, one after the other, the
/// `i`-th wandering in direction `dirs[i]` if it wanders; and the list of
/// taken tiles kept along the way (each mover first drops every copy of its
/// own tile from it, then adds the tile it ends on).
pub open spec fn skeletons_moving(
    grid: Seq<Vec<TileType>>,
    path_map: PathMap,
    vision: u8,
    player: Pos,
    skeletons: Seq<Pos>,
    dirs: Seq<(i8, i8)>,
    k: nat,
) -> (Seq<Pos>, Seq<Pos>)
    decreases k,
{
    if k == 0 {
        (skeletons, skeletons)
    } else {
        let (pos, taken) = skeletons_moving(
            grid,
            path_map,
            vision,
            player,
            skeletons,
            dirs,
            (k - 1) as nat,
        );
        let cur = pos[k - 1];
        let others = keep(taken, other_than(cur));
        let next = skeleton_step(grid, path_map, vision, player, cur, others, dirs[k - 1]);
        (pos.update(k - 1, next), others.push(next))
    }
}

/// The skeletons after all of them have moved.
pub open spec fn skeletons_moved(
    grid: Seq<Vec<TileType>>,
    path_map: PathMap,
    vision: u8,
    player: Pos,
    skeletons: Seq<Pos>,
    dirs: Seq<(i8, i8)>,
) -> Seq<Pos> {
    skeletons_moving(grid, path_map, vision, player, skeletons, dirs, skeletons.len()).0
}

/// `dirs` is a choice of one wander direction for each skeleton.
pub open spec fn wander_choice(dirs: Seq<(i8, i8)>, n: nat) -> bool {
    &&& dirs.len() == n
    &&& forall|i: int| 0 <= i < n ==> wander_dirs().contains(#[trigger] dirs[i])
}

/// The preconditions under which skeletons can move without leaving the
/// board or looking up a missing row of the table.
pub open spec fn skeletons_can_move(
    grid: Seq<Vec<TileType>>,
    path_map: PathMap,
    vision: u8,
    player: Pos,
    skeletons: Seq<Pos>,
) -> bool {
    &&& covers_board(grid)
    &&& path_map.wf()
    &&& forall|i: int|
        0 <= i < skeletons.len() ==> {
            &&& in_interior(#[trigger] skeletons[i])
            &&& manhattan(skeletons[i], player) <= vision ==> path_map.has_source(skeletons[i])
        }
}

/// Every tile but `p`.
pub open spec fn other_than(p: Pos) -> spec_fn(Pos) -> bool {
    |q: Pos| q != p
}

/// Drop every copy of `x` from `list`.
fn remove_all(list: &Vec<Pos>, x: Pos) -> (r: Vec<Pos>)
    ensures
        r@ == keep(list@, other_than(x)),
{
    let ghost f = other_than(x);
    let mut r: Vec<Pos> = Vec::new();
    let mut i: usize = 0;
    while i < list.len()
        invariant
            i <= list@.len(),
            f == other_than(x),
            r@ == keep(list@.subrange(0, i as int), f),
        decreases list@.len() - i,
    {
        assert(list@.subrange(0, i + 1).drop_last() =~= list@.subrange(0, i as int));
        if !(list[i].0 == x.0 && list[i].1 == x.1) {
            r.push(list[i]);
        }
        i += 1;
    }
    assert(list@.subrange(0, list@.len() as int) =~= list@);
    r
}

/// Move every skeleton one tile. If the player is within vision, chase
/// along the shortest path; otherwise take a random step. A skeleton won't
/// move onto a tile another skeleton already holds.
pub fn move_skeletons(state: &mut Game, player_pos: Pos, rng: &mut StdRng)
    requires
        skeletons_can_move(
            old(state).grid@,
            old(state).path_map,
            old(state).difficulty.vision,
            player_pos,
            old(state).skeleton_positions@,
        ),
    ensures
        final(state).difficulty == old(state).difficulty,
        final(state).player_position == old(state).player_position,
        final(state).skeleton_move_accumulator == old(state).skeleton_move_accumulator,
        final(state).coin_positions@ == old(state).coin_positions@,
        final(state).lives_left == old(state).lives_left,
        final(state).time_left == old(state).time_left,
        final(state).grid@ == old(state).grid@,
        final(state).score == old(state).score,
        final(state).path_map == old(state).path_map,
        exists|dirs: Seq<(i8, i8)>|
            wander_choice(dirs, old(state).skeleton_positions@.len())
                && final(state).skeleton_positions@ == skeletons_moved(
                old(state).grid@,
                old(state).path_map,
                old(state).difficulty.vision,
                player_pos,
                old(state).skeleton_positions@,
                dirs,
            ),
{
    let ghost grid = state.grid@;
    let ghost pm = state.path_map;
    let ghost vision = state.difficulty.vision;
    let ghost start = state.skeleton_positions@;
    let ghost mut dirs: Seq<(i8, i8)> = Seq::new(start.len(), |i: int| (1i8, 0i8));
    let n = state.skeleton_positions.len();
    let mut taken: Vec<Pos> = Vec::new();
    let mut j: usize = 0;
    while j < n
        invariant
            j <= n,
            n == state.skeleton_positions@.len(),
            taken@ == state.skeleton_positions@.subrange(0, j as int),
        decreases n - j,
    {
        taken.push(state.skeleton_positions[j]);
        j += 1;
    }
    assert(taken@ =~= start);
    let mut i: usize = 0;
    while i < n
        invariant
            i <= n,
            n == start.len(),
            grid == state.grid@,
            pm == state.path_map,
            vision == state.difficulty.vision,
            skeletons_can_move(grid, pm, vision, player_pos, start),
            dirs.len() == n,
            forall|j: int| 0 <= j < n ==> wander_dirs().contains(#[trigger] dirs[j]),
            state.skeleton_positions@.len() == n,
            forall|j: int| i <= j < n ==> #[trigger] state.skeleton_positions@[j] == start[j],
            (state.skeleton_positions@, taken@) == skeletons_moving(
                grid,
                pm,
                vision,
                player_pos,
                start,
                dirs,
                i as nat,
            ),
            state.difficulty == old(state).difficulty,
            state.player_position == old(state).player_position,
            state.skeleton_move_accumulator == old(state).skeleton_move_accumulator,
            state.coin_positions@ == old(state).coin_positions@,
            state.lives_left == old(state).lives_left,
            state.time_left == old(state).time_left,
            state.grid@ == old(state).grid@,
            state.score == old(state).score,
            state.path_map == old(state).path_map,
            start == old(state).skeleton_positions@,
        decreases n - i,
    {
        let cur = state.skeleton_positions[i];
        assert(cur == start[i as int]);
        let ghost prev_dirs = dirs;
        let others = remove_all(&taken, cur);
        let distance = manhattan_distance(cur, player_pos);
        let mut next = cur;
        if distance <= state.difficulty.vision as u16 {
            if let Some(step) = state.path_map.get(cur, player_pos) {
                if !contains_pos(others.as_slice(), step) {
                    next = step;
                }
            }
        } else {
            let all_dirs: [(i8, i8); 4] = [(1, 0), (-1, 0), (0, 1), (0, -1)];
            assert(all_dirs@ =~= wander_dirs());
            let dir = pick_one(rng, all_dirs.as_slice()).unwrap();
            proof {
                dirs = dirs.update(i as int, dir);
            }
            let new_x = (cur.0 as i16 + dir.0 as i16) as u8;
            let new_y = (cur.1 as i16 + dir.1 as i16) as u8;
            let is_floor_tile = match state.grid[new_y as usize][new_x as usize] {
                TileType::Floor => true,
                _ => false,
            };
            if is_floor_tile && !contains_pos(others.as_slice(), (new_x, new_y)) {
                next = (new_x, new_y);
            }
        }
        proof {
            assert(skeletons_moving(grid, pm, vision, player_pos, start, dirs, i as nat)
                == skeletons_moving(grid, pm, vision, player_pos, start, prev_dirs, i as nat))
                by {
                    lemma_moving_prefix(grid, pm, vision, player_pos, start, dirs, prev_dirs, i as nat);
                }
        }
        state.skeleton_positions.set(i, next);
        taken = others;
        taken.push(next);
        i += 1;
    }
    assert(wander_choice(dirs, start.len()));
    assert(state.skeleton_positions@ == skeletons_moved(grid, pm, vision, player_pos, start, dirs));
}

/// While skeletons move one after the other, the list of taken tiles holds
/// exactly the tiles the skeletons stand on, and no two skeletons share a
/// tile.
proof fn lemma_moving_apart(
    grid: Seq<Vec<TileType>>,
    path_map: PathMap,
    vision: u8,
    player: Pos,
    skeletons: Seq<Pos>,
    dirs: Seq<(i8, i8)>,
    k: nat,
)
    requires
        skeletons.no_duplicates(),
        k <= skeletons.len(),
    ensures
        ({
            let (pos, taken) = skeletons_moving(grid, path_map, vision, player, skeletons, dirs, k);
            &&& pos.len() == skeletons.len()
            &&& forall|p: Pos| #[trigger] taken.contains(p) <==> pos.contains(p)
            &&& pos.no_duplicates()
            &&& forall|i: int| k <= i < pos.len() ==> #[trigger] pos[i] == skeletons[i]
        }),
    decreases k,
{
    if k > 0 {
        lemma_moving_apart(grid, path_map, vision, player, skeletons, dirs, (k - 1) as nat);
        let (pos, taken) = skeletons_moving(
            grid,
            path_map,
            vision,
            player,
            skeletons,
            dirs,
            (k - 1) as nat,
        );
        let cur = pos[k - 1];
        let f = other_than(cur);
        let others = keep(taken, f);
        lemma_keep(taken, f);
        let next = skeleton_step(grid, path_map, vision, player, cur, others, dirs[k - 1]);
        assert(!others.contains(next)) by {
            if next != cur {
                assert(!others.contains(next));
            }
        }
        let pos2 = pos.update(k - 1, next);
        let taken2 = others.push(next);
        assert forall|p: Pos| #[trigger] taken2.contains(p) <==> pos2.contains(p) by {
            if pos2.contains(p) && p != next {
                let i = choose|i: int| 0 <= i < pos2.len() && pos2[i] == p;
                assert(i != k - 1);
                assert(pos[i] == p);
                assert(pos.contains(p));
                assert(p != cur);
                assert(others.contains(p));
                assert(taken2[taken2.len() - 1] == next);
                let j = choose|j: int| 0 <= j < others.len() && others[j] == p;
                assert(taken2[j] == p);
            }
            if pos2.contains(p) && p == next {
                assert(taken2[others.len() as int] == p);
            }
            if taken2.contains(p) && p != next {
                let j = choose|j: int| 0 <= j < taken2.len() && taken2[j] == p;
                assert(j < others.len());
                assert(others[j] == p);
                assert(others.contains(p));
                assert(pos.contains(p));
                let i = choose|i: int| 0 <= i < pos.len() && pos[i] == p;
                assert(i != k - 1);
                assert(pos2[i] == p);
            }
            if taken2.contains(p) && p == next {
                assert(pos2[k - 1] == p);
            }
        }
        assert forall|i: int, j: int| 0 <= i < pos2.len() && 0 <= j < pos2.len() && i != j implies pos2[i]
            != pos2[j] by {
            if i == k - 1 {
                assert(pos.contains(pos[j]));
                assert(pos[j] != cur);
                assert(others.contains(pos[j]));
            } else if j == k - 1 {
                assert(pos.contains(pos[i]));
                assert(pos[i] != cur);
                assert(others.contains(pos[i]));
            }
        }
    }
}

/// While skeletons move one after the other, each stands on floor.
proof fn lemma_moving_floor(
    grid: Seq<Vec<TileType>>,
    path_map: PathMap,
    vision: u8,
    player: Pos,
    skeletons: Seq<Pos>,
    dirs: Seq<(i8, i8)>,
    k: nat,
)
    requires
        is_dungeon(grid),
        is_path_map(grid, path_map),
        wander_choice(dirs, skeletons.len()),
        forall|i: int| 0 <= i < skeletons.len() ==> is_floor(grid, #[trigger] skeletons[i]),
        k <= skeletons.len(),
    ensures
        ({
            let pos = skeletons_moving(grid, path_map, vision, player, skeletons, dirs, k).0;
            &&& pos.len() == skeletons.len()
            &&& forall|i: int| 0 <= i < pos.len() ==> is_floor(grid, #[trigger] pos[i])
            &&& forall|i: int| k <= i < pos.len() ==> #[trigger] pos[i] == skeletons[i]
        }),
    decreases k,
{
    if k > 0 {
        lemma_moving_floor(grid, path_map, vision, player, skeletons, dirs, (k - 1) as nat);
        let (pos, taken) = skeletons_moving(
            grid,
            path_map,
            vision,
            player,
            skeletons,
            dirs,
            (k - 1) as nat,
        );
        let cur = pos[k - 1];
        let others = keep(taken, other_than(cur));
        let next = skeleton_step(grid, path_map, vision, player, cur, others, dirs[k - 1]);
        assert(is_floor(grid, cur));
        assert(is_floor(grid, next)) by {
            if next != cur {
                if manhattan(cur, player) <= vision {
                    assert(path_map.route(cur, player) is Some);
                } else {
                    assert(wander_dirs().contains(dirs[k - 1]));
                    assert(tile_at(grid, cur) != TileType::Wall);
                    assert(in_interior(cur));
                    assert(in_board(offset(cur, dirs[k - 1])));
                }
            }
        }
    }
}

/// Moving skeletons keeps them on floor, each on a tile of its own: a
/// skeleton never moves onto a tile another skeleton holds.
pub proof fn lemma_skeletons_stay_apart(
    grid: Seq<Vec<TileType>>,
    path_map: PathMap,
    vision: u8,
    player: Pos,
    skeletons: Seq<Pos>,
    dirs: Seq<(i8, i8)>,
)
    requires
        is_dungeon(grid),
        is_path_map(grid, path_map),
        wander_choice(dirs, skeletons.len()),
        skeletons.no_duplicates(),
        forall|i: int| 0 <= i < skeletons.len() ==> is_floor(grid, #[trigger] skeletons[i]),
    ensures
        ({
            let moved = skeletons_moved(grid, path_map, vision, player, skeletons, dirs);
            &&& moved.len() == skeletons.len()
            &&& moved.no_duplicates()
            &&& forall|i: int| 0 <= i < moved.len() ==> is_floor(grid, #[trigger] moved[i])
        }),
{
    lemma_moving_apart(grid, path_map, vision, player, skeletons, dirs, skeletons.len());
    lemma_moving_floor(grid, path_map, vision, player, skeletons, dirs, skeletons.len());
}

/// How one skeleton moves, over every position and draw: out of the
/// player's sight it steps onto the neighbour in the drawn direction
/// whenever that tile is floor and no other skeleton holds it, and otherwise
/// it stays or takes such a step; in sight it takes the table's first step
/// towards the player whenever no other skeleton holds that tile, a step
/// that starts a shortest walk to the player. It never ends on a tile that
/// another skeleton holds, unless it stays where it was.
pub proof fn lemma_skeleton_step_law(
    grid: Seq<Vec<TileType>>,
    path_map: PathMap,
    vision: u8,
    player: Pos,
    cur: Pos,
    others: Seq<Pos>,
    dir: (i8, i8),
)
    requires
        in_interior(cur),
        wander_dirs().contains(dir),
    ensures
        ({
            let r = skeleton_step(grid, path_map, vision, player, cur, others, dir);
            &&& manhattan(cur, player) > vision ==> forall|q: Pos|
                q.0 == cur.0 + dir.0 && q.1 == cur.1 + dir.1 && #[trigger] tile_at(grid, q)
                    == TileType::Floor && !others.contains(q) ==> r == q
            &&& manhattan(cur, player) > vision ==> r == cur || (r.0 == cur.0 + dir.0 && r.1 == cur.1
                + dir.1 && tile_at(grid, r) == TileType::Floor && !others.contains(r))
            &&& manhattan(cur, player) <= vision && path_map.route(cur, player) is Some
                && !others.contains(path_map.route(cur, player)->0) ==> r == path_map.route(
                cur,
                player,
            )->0
            &&& manhattan(cur, player) <= vision && is_path_map(grid, path_map) ==> (r == cur
                || first_step_of_shortest(grid, cur, player, r))
            &&& r == cur || !others.contains(r)
        }),
{
    assert(dir == (1i8, 0i8) || dir == (-1i8, 0i8) || dir == (0i8, 1i8) || dir == (0i8, -1i8)) by {
        let i = choose|i: int| 0 <= i < 4 && wander_dirs()[i] == dir;
    }
}

/// Earlier movers keep the tile they moved to while the later ones move.
proof fn lemma_moving_settled(
    grid: Seq<Vec<TileType>>,
    path_map: PathMap,
    vision: u8,
    player: Pos,
    skeletons: Seq<Pos>,
    dirs: Seq<(i8, i8)>,
    j: nat,
    k: nat,
)
    requires
        j < k <= skeletons.len(),
    ensures
        skeletons_moving(grid, path_map, vision, player, skeletons, dirs, k).0.len() == skeletons.len(),
        skeletons_moving(grid, path_map, vision, player, skeletons, dirs, k).0[j as int]
            == skeletons_moving(grid, path_map, vision, player, skeletons, dirs, j + 1).0[j as int],
    decreases k,
{
    lemma_moving_len(grid, path_map, vision, player, skeletons, dirs, k);
    if k > j + 1 {
        lemma_moving_settled(grid, path_map, vision, player, skeletons, dirs, j, (k - 1) as nat);
    }
}

proof fn lemma_moving_len(
    grid: Seq<Vec<TileType>>,
    path_map: PathMap,
    vision: u8,
    player: Pos,
    skeletons: Seq<Pos>,
    dirs: Seq<(i8, i8)>,
    k: nat,
)
    requires
        k <= skeletons.len(),
    ensures
        skeletons_moving(grid, path_map, vision, player, skeletons, dirs, k).0.len() == skeletons.len(),
    decreases k,
{
    if k > 0 {
        lemma_moving_len(grid, path_map, vision, player, skeletons, dirs, (k - 1) as nat);
    }
}

/// The first skeleton to move, out of the player's sight, steps onto the
/// neighbour in its drawn direction whenever that tile is floor and no
/// skeleton stands on it; in sight, it takes the table's first step towards
/// the player whenever no skeleton stands there.
pub proof fn lemma_first_skeleton_moves(
    grid: Seq<Vec<TileType>>,
    path_map: PathMap,
    vision: u8,
    player: Pos,
    skeletons: Seq<Pos>,
    dirs: Seq<(i8, i8)>,
)
    requires
        skeletons.len() > 0,
        in_interior(skeletons[0]),
        wander_choice(dirs, skeletons.len()),
    ensures
        ({
            let s = skeletons[0];
            let moved = skeletons_moved(grid, path_map, vision, player, skeletons, dirs);
            &&& manhattan(s, player) > vision ==> forall|q: Pos|
                q.0 == s.0 + dirs[0].0 && q.1 == s.1 + dirs[0].1 && #[trigger] tile_at(grid, q)
                    == TileType::Floor && !skeletons.contains(q) ==> moved[0] == q
            &&& manhattan(s, player) <= vision && path_map.route(s, player) is Some
                && !skeletons.contains(path_map.route(s, player)->0) ==> moved[0] == path_map.route(
                s,
                player,
            )->0
        }),
{
    let s = skeletons[0];
    let n = skeletons.len();
    lemma_moving_settled(grid, path_map, vision, player, skeletons, dirs, 0, n);
    assert(skeletons_moving(grid, path_map, vision, player, skeletons, dirs, 0).0 == skeletons);
    let others = keep(skeletons, other_than(s));
    lemma_keep(skeletons, other_than(s));
    assert(wander_dirs().contains(dirs[0]));
    lemma_skeleton_step_law(grid, path_map, vision, player, s, others, dirs[0]);
    assert forall|q: Pos| skeletons.contains(q) <== #[trigger] others.contains(q) by {}
}

/// Round length, in seconds.
pub const TIMER: u64 = 120;

/// The longest span a `std::time::Duration` holds, in nanoseconds.
pub const MAX_DURATION_NANOS: u128 = 18_446_744_073_709_551_615_999_999_999;

/// Score for one coin.
pub const COIN_VALUE: usize = 10;

/// Bonus for clearing the board of coins.
pub const CLEAR_BOARD_BONUS: usize = 50;

impl Game {
    /// What a tick needs of a state: a dungeon with its next-step table, the
    /// player and every skeleton on floor, and both clocks within what a
    /// `Duration` holds. Coins may lie anywhere.
    pub open spec fn playable(&self) -> bool {
        &&& is_dungeon(self.grid@)
        &&& is_path_map(self.grid@, self.path_map)
        &&& is_floor(self.grid@, self.player_position)
        &&& forall|i: int|
            0 <= i < self.skeleton_positions@.len() ==> is_floor(
                self.grid@,
                #[trigger] self.skeleton_positions@[i],
            )
        &&& self.time_left <= MAX_DURATION_NANOS
        &&& self.skeleton_move_accumulator <= MAX_DURATION_NANOS
    }

    /// A round as the game deals it: playable, skeletons each on a tile of
    /// their own, coins on distinct floor tiles, every coin reachable from
    /// the player and none under the player.
    pub open spec fn well_formed(&self) -> bool {
        &&& self.playable()
        &&& self.skeleton_positions@.no_duplicates()
        &&& self.coin_positions@.no_duplicates()
        &&& !self.coin_positions@.contains(self.player_position)
        &&& forall|i: int|
            0 <= i < self.coin_positions@.len() ==> {
                &&& is_floor(self.grid@, #[trigger] self.coin_positions@[i])
                &&& reachable(self.grid@, self.player_position, self.coin_positions@[i])
            }
    }
}

/// The tile the player aims at: one step in the direction of `input`,
/// saturating at the edges of the `u8` range.
pub open spec fn player_target(pos: Pos, input: Input) -> Pos {
    match input {
        Input::Up => (pos.0, if pos.1 > 0 { (pos.1 - 1) as u8 } else { 0u8 }),
        Input::Down => (pos.0, if pos.1 < 255 { (pos.1 + 1) as u8 } else { 255u8 }),
        Input::Left => (if pos.0 > 0 { (pos.0 - 1) as u8 } else { 0u8 }, pos.1),
        Input::Right => (if pos.0 < 255 { (pos.0 + 1) as u8 } else { 255u8 }, pos.1),
        Input::Stay => pos,
    }
}

/// Where the player ends up: on the target if it is floor, else in place.
pub open spec fn moved_player(grid: Seq<Vec<TileType>>, pos: Pos, input: Input) -> Pos {
    let t = player_target(pos, input);
    if tile_at(grid, t) == TileType::Floor {
        t
    } else {
        pos
    }
}

/// The skeletons' clock has run out this tick.
pub open spec fn skeletons_due(g: Game, delta: u128) -> bool {
    g.skeleton_move_accumulator + delta >= g.difficulty.skeleton_move_interval
}

/// `skels` is where the skeletons may stand after the tick: moved once
/// (towards the player's position at the start of the tick) if their clock
/// ran out, else where they were.
pub open spec fn skeletons_after_tick(g: Game, delta: u128, skels: Seq<Pos>) -> bool {
    if skeletons_due(g, delta) {
        exists|dirs: Seq<(i8, i8)>|
            #[trigger] wander_choice(dirs, g.skeleton_positions@.len()) && skels == skeletons_moved(
                g.grid@,
                g.path_map,
                g.difficulty.vision,
                g.player_position,
                g.skeleton_positions@,
                dirs,
            )
    } else {
        skels == g.skeleton_positions@
    }
}

/// The coins left once the player at `p` has picked up what lies there.
pub open spec fn coins_after_pickup(coins: Seq<Pos>, p: Pos) -> Seq<Pos> {
    if coins.contains(p) {
        keep(coins, other_than(p))
    } else {
        coins
    }
}

/// What one tick makes of `g`, the skeletons having ended on `skels`.
/// The skeletons' clock keeps the time left over past one move. The player
/// steps; touching a skeleton costs a life and puts the player back on the
/// board (or ends the round on the last life, or when there is no first coin
/// or no tile to come back on that leads to it); a coin under the player
/// scores `COIN_VALUE`, picking up the last coin scores `CLEAR_BOARD_BONUS`
/// too, and a board left without coins gets fresh ones.
pub open spec fn tick_outcome(g: Game, input: Input, delta: u128, skels: Seq<Pos>, r: Option<Game>) -> bool {
    let p1 = moved_player(g.grid@, g.player_position, input);
    let hit = skels.contains(p1);
    if hit && g.lives_left <= 1 {
        r is None
    } else if hit && !respawn_possible(g.grid@, skels, g.path_map, g.coin_positions@) {
        r is None
    } else {
        match r {
            None => false,
            Some(n) => {
                let p2 = n.player_position;
                let picked = g.coin_positions@.contains(p2);
                let kept = coins_after_pickup(g.coin_positions@, p2);
                &&& n.difficulty == g.difficulty
                &&& n.grid@ == g.grid@
                &&& n.path_map == g.path_map
                &&& n.time_left == g.time_left - delta
                &&& n.skeleton_move_accumulator == if skeletons_due(g, delta) {
                    g.skeleton_move_accumulator + delta - g.difficulty.skeleton_move_interval
                } else {
                    g.skeleton_move_accumulator + delta
                }
                &&& n.skeleton_positions@ == skels
                &&& n.lives_left == if hit {
                    g.lives_left - 1
                } else {
                    g.lives_left as int
                }
                &&& if hit {
                    respawn_ok(g.grid@, skels, g.path_map, g.coin_positions@[0], p2)
                } else {
                    p2 == p1
                }
                &&& n.score == g.score + (if picked {
                    COIN_VALUE
                } else {
                    0
                }) + (if picked && kept.len() == 0 {
                    CLEAR_BOARD_BONUS
                } else {
                    0
                })
                &&& if kept.len() == 0 {
                    coins_generated(g.grid@, skels, p2, g.path_map, n.coin_positions@)
                } else {
                    n.coin_positions@ == kept
                }
            },
        }
    }
}

/// `q` is the tile next to `p` in the direction of `input`: one row up for
/// Up, one row down for Down, one column left for Left, one column right for
/// Right. Staying names no tile.
pub open spec fn in_direction(p: Pos, q: Pos, input: Input) -> bool {
    match input {
        Input::Up => q.0 == p.0 && q.1 + 1 == p.1,
        Input::Down => q.0 == p.0 && q.1 == p.1 + 1,
        Input::Left => q.0 + 1 == p.0 && q.1 == p.1,
        Input::Right => q.0 == p.0 + 1 && q.1 == p.1,
        Input::Stay => false,
    }
}

/// How the player moves in a tick that goes on: onto the tile next to it in
/// the direction of the input whenever that tile is floor and no skeleton
/// ends the tick there; in place when the input names no floor tile and no
/// skeleton ends on the player's tile. Untouched by skeletons, the player
/// ends either where it stood or on the floor tile the input points at.
pub proof fn lemma_tick_moves_player(g: Game, input: Input, delta: u128, skels: Seq<Pos>, n: Game)
    requires
        tick_outcome(g, input, delta, skels, Some(n)),
    ensures
        forall|q: Pos|
            #[trigger] in_direction(g.player_position, q, input) && tile_at(g.grid@, q)
                == TileType::Floor && !skels.contains(q) ==> n.player_position == q,
        (forall|q: Pos| #[trigger] in_direction(g.player_position, q, input) ==> tile_at(g.grid@, q)
            != TileType::Floor) && !skels.contains(g.player_position) ==> n.player_position
            == g.player_position,
        !skels.contains(moved_player(g.grid@, g.player_position, input)) ==> (n.player_position
            == g.player_position || (in_direction(g.player_position, n.player_position, input)
            && tile_at(g.grid@, n.player_position) == TileType::Floor)),
{
    let p = g.player_position;
    let t = player_target(p, input);
    if input != Input::Stay && t != p {
        assert(in_direction(p, t, input));
    }
    assert forall|q: Pos| #[trigger] in_direction(p, q, input) implies q == t by {}
}

/// Score never goes down: a tick adds nothing, a coin's worth, or a coin's
/// worth and the clear-board bonus when that coin was the last. Lives never
/// go up, and go down by one exactly when the player touched a skeleton. The
/// clock runs down by exactly the time that passed.
pub proof fn lemma_tick_counters(g: Game, input: Input, delta: u128, skels: Seq<Pos>, n: Game)
    requires
        tick_outcome(g, input, delta, skels, Some(n)),
    ensures
        n.score == g.score || n.score == g.score + COIN_VALUE || n.score == g.score + COIN_VALUE
            + CLEAR_BOARD_BONUS,
        n.score > g.score + COIN_VALUE ==> g.coin_positions@.contains(n.player_position) && n.score
            == g.score + COIN_VALUE + CLEAR_BOARD_BONUS,
        n.lives_left <= g.lives_left,
        n.lives_left < g.lives_left <==> skels.contains(moved_player(g.grid@, g.player_position, input)),
        n.lives_left + 1 >= g.lives_left,
        n.time_left == g.time_left - delta,
{
}

/// When the round goes on, the player does not stand on a skeleton: either
/// none was touched, or the caught player came back on a free tile, at least
/// `MIN_DISTANCE` from every skeleton whenever the board has such a tile.
pub proof fn lemma_tick_player_safe(g: Game, input: Input, delta: u128, skels: Seq<Pos>, n: Game)
    requires
        tick_outcome(g, input, delta, skels, Some(n)),
    ensures
        !n.skeleton_positions@.contains(n.player_position),
        skels.contains(moved_player(g.grid@, g.player_position, input)) && spawn_choices(
            g.grid@,
            skels,
        ).len() > 0 ==> crate::spawn::far_from_all(n.player_position, skels),
{
    let grid = g.grid@;
    if skels.contains(moved_player(grid, g.player_position, input)) {
        lemma_spawn_choices(grid, skels);
        crate::grid::lemma_floor_tiles(grid, skels);
        if spawn_choices(grid, skels).len() == 0 {
            assert(floor_tiles(grid, skels).contains(floor_tiles(grid, skels)[0]));
        }
    }
}

/// The safety law of a tick, whatever the clocks and the score: from a
/// board whose player and skeletons stand on floor, a tick that goes on
/// leaves the player on floor and on neither a skeleton nor a coin, and the
/// skeletons on floor, each on a tile of its own if they were before.
pub proof fn lemma_tick_safe(g: Game, input: Input, delta: u128, skels: Seq<Pos>, n: Game)
    requires
        is_dungeon(g.grid@),
        is_path_map(g.grid@, g.path_map),
        is_floor(g.grid@, g.player_position),
        forall|i: int|
            0 <= i < g.skeleton_positions@.len() ==> is_floor(
                g.grid@,
                #[trigger] g.skeleton_positions@[i],
            ),
        skeletons_after_tick(g, delta, skels),
        tick_outcome(g, input, delta, skels, Some(n)),
    ensures
        is_floor(n.grid@, n.player_position),
        forall|i: int|
            0 <= i < n.skeleton_positions@.len() ==> is_floor(
                n.grid@,
                #[trigger] n.skeleton_positions@[i],
            ),
        g.skeleton_positions@.no_duplicates() ==> n.skeleton_positions@.no_duplicates(),
        !n.skeleton_positions@.contains(n.player_position),
        !n.coin_positions@.contains(n.player_position),
{
    let grid = g.grid@;
    let pm = g.path_map;
    let p0 = g.player_position;
    let p1 = moved_player(grid, p0, input);
    let p2 = n.player_position;
    if skeletons_due(g, delta) {
        let dirs = choose|dirs: Seq<(i8, i8)>|
            #[trigger] wander_choice(dirs, g.skeleton_positions@.len()) && skels == skeletons_moved(
                g.grid@,
                g.path_map,
                g.difficulty.vision,
                g.player_position,
                g.skeleton_positions@,
                dirs,
            );
        lemma_moving_floor(grid, pm, g.difficulty.vision, p0, g.skeleton_positions@, dirs, g.skeleton_positions@.len());
        if g.skeleton_positions@.no_duplicates() {
            lemma_skeletons_stay_apart(grid, pm, g.difficulty.vision, p0, g.skeleton_positions@, dirs);
        }
    }
    assert(in_interior(p0));
    lemma_tick_player_safe(g, input, delta, skels, n);
    if skels.contains(p1) {
        lemma_spawn_choices(grid, skels);
        crate::grid::lemma_floor_tiles(grid, skels);
        if spawn_choices(grid, skels).len() == 0 {
            assert(floor_tiles(grid, skels).contains(floor_tiles(grid, skels)[0]));
        }
    }
    assert(is_floor(grid, p2));
    let kept = coins_after_pickup(g.coin_positions@, p2);
    if kept.len() == 0 {
        lemma_coin_choices(grid, skels, p2, pm);
        let choices = crate::spawn::coin_choices(grid, skels, p2, pm);
        if n.coin_positions@.contains(p2) {
            let i = choose|i: int| 0 <= i < n.coin_positions@.len() && n.coin_positions@[i] == p2;
            assert(choices.contains(n.coin_positions@[i]));
        }
    } else if g.coin_positions@.contains(p2) {
        lemma_keep(g.coin_positions@, other_than(p2));
    }
}

/// A tick keeps a state playable, and leaves the player on neither a
/// skeleton nor a coin.
pub proof fn lemma_tick_playable(g: Game, input: Input, delta: u128, skels: Seq<Pos>, n: Game)
    requires
        g.playable(),
        g.time_left > delta,
        g.skeleton_move_accumulator + delta <= MAX_DURATION_NANOS,
        skeletons_after_tick(g, delta, skels),
        tick_outcome(g, input, delta, skels, Some(n)),
    ensures
        n.playable(),
        !n.skeleton_positions@.contains(n.player_position),
        !n.coin_positions@.contains(n.player_position),
{
    lemma_tick_safe(g, input, delta, skels, n);
}

/// A tick takes a round as the game deals it to a round as the game deals
/// it: in particular every coin stays reachable from the player.
pub proof fn lemma_tick_well_formed(g: Game, input: Input, delta: u128, skels: Seq<Pos>, n: Game)
    requires
        g.well_formed(),
        g.time_left > delta,
        g.skeleton_move_accumulator + delta <= MAX_DURATION_NANOS,
        skeletons_after_tick(g, delta, skels),
        tick_outcome(g, input, delta, skels, Some(n)),
    ensures
        n.well_formed(),
{
    lemma_tick_playable(g, input, delta, skels, n);
    let grid = g.grid@;
    let pm = g.path_map;
    let p0 = g.player_position;
    let p1 = moved_player(grid, p0, input);
    let p2 = n.player_position;
    let hit = skels.contains(p1);
    // skeletons
    if skeletons_due(g, delta) {
        let dirs = choose|dirs: Seq<(i8, i8)>|
            #[trigger] wander_choice(dirs, g.skeleton_positions@.len()) && skels == skeletons_moved(
                g.grid@,
                g.path_map,
                g.difficulty.vision,
                g.player_position,
                g.skeleton_positions@,
                dirs,
            );
        lemma_skeletons_stay_apart(grid, pm, g.difficulty.vision, p0, g.skeleton_positions@, dirs);
    }
    // the player
    assert(in_interior(p0));
    if p1 != p0 {
        assert(is_floor(grid, p1));
        assert(can_step(grid, p1, p0));
        lemma_step_reachable(grid, p1, p0);
    }
    if hit {
        lemma_spawn_choices(grid, skels);
        crate::grid::lemma_floor_tiles(grid, skels);
        if spawn_choices(grid, skels).len() == 0 {
            assert(floor_tiles(grid, skels).contains(floor_tiles(grid, skels)[0]));
        }
        assert(is_floor(grid, p2));
        let coin0 = g.coin_positions@[0];
        assert(pm.route(p2, coin0) is Some);
        assert(reachable(grid, p2, coin0));
        assert(is_floor(grid, coin0) && reachable(grid, p0, coin0));
        lemma_reachable_symm(grid, p0, coin0);
        lemma_reachable_trans(grid, p2, coin0, p0);
    }
    assert(is_floor(grid, p2));
    // from the new position every old coin is still reachable
    assert forall|c: Pos| #[trigger] g.coin_positions@.contains(c) implies reachable(grid, p2, c) by {
        let i = choose|i: int| 0 <= i < g.coin_positions@.len() && g.coin_positions@[i] == c;
        assert(reachable(grid, p0, g.coin_positions@[i]));
        if hit {
            lemma_reachable_trans(grid, p2, p0, c);
        } else if p1 != p0 {
            lemma_reachable_trans(grid, p1, p0, c);
        }
    }
    let kept = coins_after_pickup(g.coin_positions@, p2);
    if kept.len() == 0 {
        lemma_coin_choices(grid, skels, p2, pm);
        let choices = crate::spawn::coin_choices(grid, skels, p2, pm);
        assert forall|i: int| 0 <= i < n.coin_positions@.len() implies {
            &&& is_floor(grid, #[trigger] n.coin_positions@[i])
            &&& reachable(grid, p2, n.coin_positions@[i])
        } by {
            assert(choices.contains(n.coin_positions@[i]));
        }
        if n.coin_positions@.contains(p2) {
            let i = choose|i: int| 0 <= i < n.coin_positions@.len() && n.coin_positions@[i] == p2;
            assert(choices.contains(n.coin_positions@[i]));
        }
    } else {
        if g.coin_positions@.contains(p2) {
            lemma_keep(g.coin_positions@, other_than(p2));
        }
        assert forall|i: int| 0 <= i < n.coin_positions@.len() implies {
            &&& is_floor(grid, #[trigger] n.coin_positions@[i])
            &&& reachable(grid, p2, n.coin_positions@[i])
        } by {
            let c = n.coin_positions@[i];
            assert(kept.contains(c));
            assert(g.coin_positions@.contains(c));
            let j = choose|j: int| 0 <= j < g.coin_positions@.len() && g.coin_positions@[j] == c;
            assert(is_floor(grid, g.coin_positions@[j]));
        }
    }
}

/// Advance the world by `delta` nanoseconds: count down the timer, move
/// skeletons on their own cadence, apply the player's action, then resolve
/// collisions, coin pickups, and a board refresh once every coin is gone.
/// Returns `None` when the round is over, otherwise the updated state. The
/// round is over when the timer hits zero, when the last life is lost, or
/// when a caught player cannot be put back: the board holds no coin, or no
/// tile the spawn rule can give leads to the first coin (respawning would
/// draw forever).
pub fn tick(state: Game, input: Input, delta: u128, rng: &mut StdRng) -> (r: Option<Game>)
    requires
        state.playable(),
        state.time_left > delta ==> state.skeleton_move_accumulator + delta <= MAX_DURATION_NANOS,
        state.score + COIN_VALUE + CLEAR_BOARD_BONUS <= usize::MAX,
    ensures
        state.time_left <= delta ==> r is None,
        state.time_left > delta ==> exists|skels: Seq<Pos>|
            #[trigger] skeletons_after_tick(state, delta, skels) && tick_outcome(
                state,
                input,
                delta,
                skels,
                r,
            ),
        r matches Some(n) ==> n.playable(),
        r matches Some(n) ==> !n.skeleton_positions@.contains(n.player_position),
        r matches Some(n) ==> !n.coin_positions@.contains(n.player_position),
        state.well_formed() ==> (r matches Some(n) ==> n.well_formed()),
{
    let ghost g = state;
    let mut state = state;
    state.time_left = state.time_left.saturating_sub(delta);
    if state.time_left == 0 {
        return None;
    }
    let mut player_pos = state.player_position;
    state.skeleton_move_accumulator = state.skeleton_move_accumulator + delta;
    if state.skeleton_move_accumulator >= state.difficulty.skeleton_move_interval {
        state.skeleton_move_accumulator = state.skeleton_move_accumulator
            - state.difficulty.skeleton_move_interval;
        proof {
            assert forall|i: int| 0 <= i < state.skeleton_positions@.len() implies {
                &&& in_interior(#[trigger] state.skeleton_positions@[i])
                &&& manhattan(state.skeleton_positions@[i], player_pos) <= state.difficulty.vision
                    ==> state.path_map.has_source(state.skeleton_positions@[i])
            } by {
                assert(is_floor(state.grid@, state.skeleton_positions@[i]));
            }
        }
        move_skeletons(&mut state, player_pos, rng);
    }
    let ghost skels = state.skeleton_positions@;
    assert(skeletons_after_tick(g, delta, skels));
    match input {
        Input::Up => player_pos.1 = player_pos.1.saturating_sub(1),
        Input::Down => player_pos.1 = player_pos.1.saturating_add(1),
        Input::Left => player_pos.0 = player_pos.0.saturating_sub(1),
        Input::Right => player_pos.0 = player_pos.0.saturating_add(1),
        Input::Stay => {},
    }
    assert(player_pos == player_target(g.player_position, input));
    let target_is_floor = match state.grid[player_pos.1 as usize][player_pos.0 as usize] {
        TileType::Floor => true,
        _ => false,
    };
    if target_is_floor {
        state.player_position = player_pos;
    }
    assert(state.player_position == moved_player(g.grid@, g.player_position, input));
    if contains_pos(state.skeleton_positions.as_slice(), state.player_position) {
        state.lives_left = state.lives_left.saturating_sub(1);
        if state.lives_left == 0 {
            assert(tick_outcome(g, input, delta, skels, None));
            return None;
        }
        match respawn_player(
            state.grid.as_slice(),
            state.skeleton_positions.as_slice(),
            state.coin_positions.as_slice(),
            &state.path_map,
            rng,
        ) {
            Some(p) => state.player_position = p,
            None => {
                assert(tick_outcome(g, input, delta, skels, None));
                return None;
            },
        }
    }
    let ghost p2 = state.player_position;
    let picked = contains_pos(state.coin_positions.as_slice(), state.player_position);
    if picked {
        state.score = state.score + COIN_VALUE;
        state.coin_positions = remove_all(&state.coin_positions, state.player_position);
    }
    assert(state.coin_positions@ == coins_after_pickup(g.coin_positions@, p2));
    if state.coin_positions.len() == 0 {
        if picked {
            state.score = state.score + CLEAR_BOARD_BONUS;
        }
        proof {
            assert(is_floor(state.grid@, state.player_position));
            assert(state.path_map.has_source(state.player_position));
        }
        state.coin_positions = generate_coins(
            state.grid.as_slice(),
            state.skeleton_positions.as_slice(),
            &state.player_position,
            rng,
            &state.path_map,
        );
    }
    assert(tick_outcome(g, input, delta, skels, Some(state)));
    proof {
        lemma_tick_playable(g, input, delta, skels, state);
        if g.well_formed() {
            lemma_tick_well_formed(g, input, delta, skels, state);
        }
    }
    Some(state)
}

/// `p` is where a player caught by a skeleton may come back: a tile the
/// spawn rule can give (a spawn choice if there is any, else the first
/// floor tile off the skeletons) with a route to `coin`.
pub open spec fn respawn_ok(
    grid: Seq<Vec<TileType>>,
    skeletons: Seq<Pos>,
    path_map: PathMap,
    coin: Pos,
    p: Pos,
) -> bool {
    &&& path_map.route(p, coin) is Some
    &&& spawn_rule(grid, skeletons, p)
}

/// `p` is a tile the spawn rule can give: a spawn choice if there is any,
/// else the first floor tile off the skeletons.
pub open spec fn spawn_rule(grid: Seq<Vec<TileType>>, skeletons: Seq<Pos>, p: Pos) -> bool {
    if spawn_choices(grid, skeletons).len() > 0 {
        spawn_choices(grid, skeletons).contains(p)
    } else {
        floor_tiles(grid, skeletons).len() > 0 && p == floor_tiles(grid, skeletons)[0]
    }
}

/// How many other tiles the player's start tile must reach.
pub const MIN_REGION_SIZE: usize = 2;

/// `p` is where a round may start: a tile the spawn rule can give whose row
/// of the table holds at least `MIN_REGION_SIZE` routes.
pub open spec fn start_ok(
    grid: Seq<Vec<TileType>>,
    skeletons: Seq<Pos>,
    path_map: PathMap,
    p: Pos,
) -> bool {
    &&& spawn_rule(grid, skeletons, p)
    &&& path_map.route_count(p) >= MIN_REGION_SIZE
}

/// Some tile can start a round.
pub open spec fn start_possible(
    grid: Seq<Vec<TileType>>,
    skeletons: Seq<Pos>,
    path_map: PathMap,
) -> bool {
    exists|p: Pos| #[trigger] start_ok(grid, skeletons, path_map, p)
}

/// What a drawn player tile must offer: a region of at least
/// `MIN_REGION_SIZE` other tiles, or a route to the given coin.
#[derive(Clone, Copy)]
enum SpawnGoal {
    Region,
    RouteTo(Pos),
}

spec fn goal_met(path_map: PathMap, goal: SpawnGoal, p: Pos) -> bool {
    match goal {
        SpawnGoal::Region => path_map.route_count(p) >= MIN_REGION_SIZE,
        SpawnGoal::RouteTo(coin) => path_map.route(p, coin) is Some,
    }
}

/// `p` is a tile the spawn rule can give that offers `goal`.
spec fn spawn_target(
    grid: Seq<Vec<TileType>>,
    skeletons: Seq<Pos>,
    path_map: PathMap,
    goal: SpawnGoal,
    p: Pos,
) -> bool {
    spawn_rule(grid, skeletons, p) && goal_met(path_map, goal, p)
}

fn meets(path_map: &PathMap, goal: SpawnGoal, p: Pos) -> (r: bool)
    requires
        path_map.wf(),
        path_map.has_source(p),
    ensures
        r == goal_met(*path_map, goal, p),
{
    match goal {
        SpawnGoal::Region => path_map.len_from(p) >= MIN_REGION_SIZE,
        SpawnGoal::RouteTo(coin) => path_map.contains_route(p, coin),
    }
}

/// Draw spawn tiles until one offers `goal`. `None` when no tile the spawn
/// rule can give does (the draw would never end). After `u64::MAX` failed
/// draws the first such tile in row-major order is taken.
fn spawn_toward(
    grid: &[Vec<TileType>],
    skeletons: &[Pos],
    path_map: &PathMap,
    goal: SpawnGoal,
    rng: &mut StdRng,
) -> (r: Option<Pos>)
    requires
        is_dungeon(grid@),
        is_path_map(grid@, *path_map),
    ensures
        r is Some <==> exists|p: Pos| #[trigger] spawn_target(grid@, skeletons@, *path_map, goal, p),
        r matches Some(p) ==> spawn_target(grid@, skeletons@, *path_map, goal, p),
{
    let floor = get_floor_tiles(grid, skeletons);
    proof {
        lemma_spawn_choices(grid@, skeletons@);
    }
    if floor.len() == 0 {
        proof {
            assert forall|p: Pos| !#[trigger] spawn_target(grid@, skeletons@, *path_map, goal, p) by {}
        }
        return None;
    }
    let candidates = spawn_candidates(grid, skeletons);
    if candidates.len() == 0 {
        let p = spawn_player(grid, skeletons, rng);
        assert(is_floor(grid@, p));
        if meets(path_map, goal, p) {
            assert(spawn_target(grid@, skeletons@, *path_map, goal, p));
            return Some(p);
        } else {
            proof {
                assert forall|q: Pos| !#[trigger] spawn_target(grid@, skeletons@, *path_map, goal, q) by {}
            }
            return None;
        }
    }
    let mut first: Option<Pos> = None;
    let mut j: usize = 0;
    while j < candidates.len()
        invariant
            j <= candidates@.len(),
            path_map.wf(),
            is_path_map(grid@, *path_map),
            is_dungeon(grid@),
            candidates@ == spawn_choices(grid@, skeletons@),
            forall|p: Pos| #[trigger] spawn_choices(grid@, skeletons@).contains(p) ==> is_floor(grid@, p),
            first is None ==> forall|i: int|
                0 <= i < j ==> !goal_met(*path_map, goal, #[trigger] candidates@[i]),
            first matches Some(q) ==> spawn_target(grid@, skeletons@, *path_map, goal, q),
        decreases candidates@.len() - j,
    {
        if first.is_none() {
            let q = candidates[j];
            assert(spawn_choices(grid@, skeletons@).contains(q));
            if meets(path_map, goal, q) {
                first = Some(q);
            }
        }
        j += 1;
    }
    match first {
        None => {
            proof {
                assert forall|q: Pos| !#[trigger] spawn_target(grid@, skeletons@, *path_map, goal, q) by {
                    if spawn_choices(grid@, skeletons@).contains(q) && goal_met(*path_map, goal, q) {
                        let i = choose|i: int| 0 <= i < candidates@.len() && candidates@[i] == q;
                        assert(!goal_met(*path_map, goal, candidates@[i]));
                    }
                }
            }
            None
        },
        Some(fallback) => {
            let mut attempts: u64 = 0;
            while attempts < u64::MAX
                invariant
                    is_dungeon(grid@),
                    is_path_map(grid@, *path_map),
                    path_map.wf(),
                    floor_tiles(grid@, skeletons@).len() > 0,
                    spawn_choices(grid@, skeletons@).len() > 0,
                    forall|p: Pos| #[trigger] spawn_choices(grid@, skeletons@).contains(p) ==> is_floor(grid@, p),
                    spawn_target(grid@, skeletons@, *path_map, goal, fallback),
                decreases u64::MAX - attempts,
            {
                let candidate = spawn_player(grid, skeletons, rng);
                if meets(path_map, goal, candidate) {
                    return Some(candidate);
                }
                attempts += 1;
            }
            Some(fallback)
        },
    }
}

/// Pick the player's start tile: draw spawn tiles until one lies in a
/// region of at least `MIN_REGION_SIZE` other tiles. `None` when no tile the
/// spawn rule can give does.
fn start_position(
    grid: &[Vec<TileType>],
    skeletons: &[Pos],
    path_map: &PathMap,
    rng: &mut StdRng,
) -> (r: Option<Pos>)
    requires
        is_dungeon(grid@),
        is_path_map(grid@, *path_map),
    ensures
        r is Some <==> start_possible(grid@, skeletons@, *path_map),
        r matches Some(p) ==> start_ok(grid@, skeletons@, *path_map, p),
{
    let r = spawn_toward(grid, skeletons, path_map, SpawnGoal::Region, rng);
    proof {
        if start_possible(grid@, skeletons@, *path_map) {
            let p = choose|p: Pos| #[trigger] start_ok(grid@, skeletons@, *path_map, p);
            assert(spawn_target(grid@, skeletons@, *path_map, SpawnGoal::Region, p));
        }
        if r is Some {
            assert(start_ok(grid@, skeletons@, *path_map, r->0));
        }
    }
    r
}

/// What stands on a board tile, as drawn over the tile itself.
#[derive(PartialEq, Eq, Structural, Clone, Copy, Debug)]
pub enum Occupant {
    Player,
    Skeleton,
    Coin,
    Empty,
}

/// The one thing drawn on tile `p`: the player over a skeleton over a coin.
pub open spec fn occupant_spec(g: Game, p: Pos) -> Occupant {
    if g.player_position == p {
        Occupant::Player
    } else if g.skeleton_positions@.contains(p) {
        Occupant::Skeleton
    } else if g.coin_positions@.contains(p) {
        Occupant::Coin
    } else {
        Occupant::Empty
    }
}

/// What to draw on tile `p`: the player if there, else a skeleton if one
/// stands there, else a coin if one lies there.
pub fn occupant(g: &Game, p: Pos) -> (r: Occupant)
    ensures
        r == occupant_spec(*g, p),
{
    if g.player_position.0 == p.0 && g.player_position.1 == p.1 {
        Occupant::Player
    } else if contains_pos(g.skeleton_positions.as_slice(), p) {
        Occupant::Skeleton
    } else if contains_pos(g.coin_positions.as_slice(), p) {
        Occupant::Coin
    } else {
        Occupant::Empty
    }
}

/// A tile the spawn rule can give reaches at least two other tiles, so a
/// round can start on this dungeon with these skeletons.
pub open spec fn can_start(grid: Seq<Vec<TileType>>, skeletons: Seq<Pos>) -> bool {
    exists|p: Pos| #[trigger] spawn_rule(grid, skeletons, p) && two_others_reachable(grid, p)
}

/// A tile the spawn rule gives is a floor tile.
proof fn lemma_spawn_rule_floor(grid: Seq<Vec<TileType>>, skeletons: Seq<Pos>, p: Pos)
    requires
        spawn_rule(grid, skeletons, p),
    ensures
        is_floor(grid, p),
{
    lemma_spawn_choices(grid, skeletons);
    crate::grid::lemma_floor_tiles(grid, skeletons);
    if spawn_choices(grid, skeletons).len() == 0 {
        assert(floor_tiles(grid, skeletons).contains(floor_tiles(grid, skeletons)[0]));
    }
}

/// With the dungeon's own table, a start tile exists exactly when a round
/// can start.
proof fn lemma_start_possible(grid: Seq<Vec<TileType>>, skeletons: Seq<Pos>, path_map: PathMap)
    requires
        is_path_map(grid, path_map),
    ensures
        start_possible(grid, skeletons, path_map) <==> can_start(grid, skeletons),
{
    if start_possible(grid, skeletons, path_map) {
        let p = choose|p: Pos| #[trigger] start_ok(grid, skeletons, path_map, p);
        lemma_spawn_rule_floor(grid, skeletons, p);
        lemma_route_count(grid, path_map, p);
        assert(spawn_rule(grid, skeletons, p) && two_others_reachable(grid, p));
    }
    if can_start(grid, skeletons) {
        let p = choose|p: Pos| #[trigger] spawn_rule(grid, skeletons, p) && two_others_reachable(grid, p);
        lemma_spawn_rule_floor(grid, skeletons, p);
        lemma_route_count(grid, path_map, p);
        assert(start_ok(grid, skeletons, path_map, p));
    }
}

/// Start a round on a given dungeon with the skeletons already placed:
/// precompute paths, place the player (somewhere clear of skeletons that
/// reaches at least two other tiles), then the coins. `None` exactly when no
/// tile the spawn rule can give reaches two other tiles. The round is well
/// formed when the skeletons stand on tiles of their own.
pub fn new_game_on(
    difficulty: DifficultyParameters,
    grid: Vec<Vec<TileType>>,
    skeletons: Vec<Pos>,
    rng: &mut StdRng,
) -> (r: Option<Game>)
    requires
        is_dungeon(grid@),
        forall|i: int| 0 <= i < skeletons@.len() ==> is_floor(grid@, #[trigger] skeletons@[i]),
    ensures
        r is None <==> !can_start(grid@, skeletons@),
        r matches Some(g) ==> {
            &&& g.playable()
            &&& skeletons@.no_duplicates() ==> g.well_formed()
            &&& g.coin_positions@.no_duplicates()
            &&& !g.coin_positions@.contains(g.player_position)
            &&& g.difficulty == difficulty
            &&& g.grid@ == grid@
            &&& g.skeleton_positions@ == skeletons@
            &&& g.lives_left == difficulty.lives
            &&& g.time_left == TIMER * 1_000_000_000
            &&& g.skeleton_move_accumulator == 0
            &&& g.score == 0
            &&& spawn_rule(grid@, skeletons@, g.player_position)
            &&& two_others_reachable(grid@, g.player_position)
            &&& coins_generated(
                grid@,
                skeletons@,
                g.player_position,
                g.path_map,
                g.coin_positions@,
            )
        },
{
    let path_map = build_map(grid.as_slice());
    proof {
        lemma_start_possible(grid@, skeletons@, path_map);
    }
    let player_position = match start_position(
        grid.as_slice(),
        skeletons.as_slice(),
        &path_map,
        rng,
    ) {
        Some(p) => p,
        None => {
            return None;
        },
    };
    proof {
        lemma_spawn_rule_floor(grid@, skeletons@, player_position);
        lemma_route_count(grid@, path_map, player_position);
    }
    let coins = generate_coins(grid.as_slice(), skeletons.as_slice(), &player_position, rng, &path_map);
    let game = Game {
        difficulty,
        player_position,
        skeleton_positions: skeletons,
        skeleton_move_accumulator: 0,
        coin_positions: coins,
        lives_left: difficulty.lives,
        time_left: TIMER as u128 * 1_000_000_000,
        grid,
        score: 0,
        path_map,
    };
    proof {
        lemma_coin_choices(game.grid@, game.skeleton_positions@, player_position, game.path_map);
        let choices = crate::spawn::coin_choices(
            game.grid@,
            game.skeleton_positions@,
            player_position,
            game.path_map,
        );
        assert forall|i: int| 0 <= i < game.coin_positions@.len() implies {
            &&& is_floor(game.grid@, #[trigger] game.coin_positions@[i])
            &&& reachable(game.grid@, player_position, game.coin_positions@[i])
        } by {
            assert(choices.contains(game.coin_positions@[i]));
        }
        if game.coin_positions@.contains(player_position) {
            let i = choose|i: int| 0 <= i < game.coin_positions@.len() && game.coin_positions@[i] == player_position;
            assert(choices.contains(game.coin_positions@[i]));
        }
    }
    Some(game)
}

/// Start a fresh round for the given difficulty: generate the grid, place
/// the skeletons, then start the round on them (see `new_game_on`). `None`
/// when the drawn dungeon and skeletons leave no tile to start on.
pub fn new_game(difficulty: DifficultyParameters, rng: &mut StdRng) -> (r: Option<Game>)
    ensures
        r matches Some(g) ==> {
            &&& g.well_formed()
            &&& g.difficulty == difficulty
            &&& g.lives_left == difficulty.lives
            &&& g.time_left == TIMER * 1_000_000_000
            &&& g.skeleton_move_accumulator == 0
            &&& g.score == 0
            &&& skeletons_drawn(g.grid@, difficulty, g.skeleton_positions@)
            &&& spawn_rule(g.grid@, g.skeleton_positions@, g.player_position)
            &&& two_others_reachable(g.grid@, g.player_position)
            &&& coins_generated(
                g.grid@,
                g.skeleton_positions@,
                g.player_position,
                g.path_map,
                g.coin_positions@,
            )
        },
        r is None ==> exists|grid: Seq<Vec<TileType>>, skeletons: Seq<Pos>|
            #![trigger can_start(grid, skeletons)]
            is_dungeon(grid) && skeletons_drawn(grid, difficulty, skeletons) && !can_start(
                grid,
                skeletons,
            ),
{
    let grid = generate_grid(rng);
    let skeletons = generate_skeletons(grid.as_slice(), difficulty, rng);
    proof {
        crate::grid::lemma_floor_tiles(grid@, seq![]);
        assert forall|i: int| 0 <= i < skeletons@.len() implies is_floor(
            grid@,
            #[trigger] skeletons@[i],
        ) by {
            assert(floor_tiles(grid@, seq![]).contains(skeletons@[i]));
        }
    }
    let ghost g0 = grid@;
    let ghost s0 = skeletons@;
    let r = new_game_on(difficulty, grid, skeletons, rng);
    proof {
        if r is None {
            assert(is_dungeon(g0) && skeletons_drawn(g0, difficulty, s0) && !can_start(g0, s0));
        }
    }
    r
}

/// There is a first coin, and a tile to come back on that has a route to
/// it.
pub open spec fn respawn_possible(
    grid: Seq<Vec<TileType>>,
    skeletons: Seq<Pos>,
    path_map: PathMap,
    coins: Seq<Pos>,
) -> bool {
    coins.len() > 0 && exists|p: Pos| #[trigger] respawn_ok(grid, skeletons, path_map, coins[0], p)
}

/// Put a caught player back on the board: draw spawn tiles until one has a
/// route to the first coin. `None` when there is no first coin or no tile
/// the spawn rule can give has such a route (the draw would never end).
/// After `u64::MAX` failed draws the first such tile in row-major order is
/// taken.
fn respawn_player(
    grid: &[Vec<TileType>],
    skeletons: &[Pos],
    coins: &[Pos],
    path_map: &PathMap,
    rng: &mut StdRng,
) -> (r: Option<Pos>)
    requires
        is_dungeon(grid@),
        is_path_map(grid@, *path_map),
    ensures
        r is Some <==> respawn_possible(grid@, skeletons@, *path_map, coins@),
        r matches Some(p) ==> respawn_ok(grid@, skeletons@, *path_map, coins@[0], p),
{
    if coins.len() == 0 {
        return None;
    }
    let coin = coins[0];
    let r = spawn_toward(grid, skeletons, path_map, SpawnGoal::RouteTo(coin), rng);
    proof {
        if respawn_possible(grid@, skeletons@, *path_map, coins@) {
            let p = choose|p: Pos| #[trigger] respawn_ok(grid@, skeletons@, *path_map, coin, p);
            assert(spawn_target(grid@, skeletons@, *path_map, SpawnGoal::RouteTo(coin), p));
        }
        if r is Some {
            assert(respawn_ok(grid@, skeletons@, *path_map, coin, r->0));
        }
    }
    r
}

/// Moving the first `k` skeletons only looks at the first `k` wander
/// directions.
proof fn lemma_moving_prefix(
    grid: Seq<Vec<TileType>>,
    path_map: PathMap,
    vision: u8,
    player: Pos,
    skeletons: Seq<Pos>,
    a: Seq<(i8, i8)>,
    b: Seq<(i8, i8)>,
    k: nat,
)
    requires
        forall|j: int| 0 <= j < k ==> a[j] == b[j],
    ensures
        skeletons_moving(grid, path_map, vision, player, skeletons, a, k) == skeletons_moving(
            grid,
            path_map,
            vision,
            player,
            skeletons,
            b,
            k,
        ),
    decreases k,
{
    if k > 0 {
        lemma_moving_prefix(grid, path_map, vision, player, skeletons, a, b, (k - 1) as nat);
    }
}

} // verus!
