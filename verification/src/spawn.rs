//! Placing things on a fresh board: skeletons, the player, and coins.

use vstd::prelude::*;
use rand::rngs::StdRng;
use crate::game::DifficultyParameters;
use crate::grid::{
    contains_pos, covers_interior, floor_tiles, get_floor_tiles, in_interior, keep, lemma_floor_tiles,
    lemma_keep, tile_at, Pos, TileType,
};
use crate::paths::PathMap;
use crate::random::{lemma_picked, pick_many, pick_one, picked_from};

verus! {

/// Minimum Manhattan distance the player must spawn from every skeleton.
pub const MIN_DISTANCE: u8 = 3;

/// How many coins a fresh board holds at most.
pub const COINS_PER_BOARD: usize = 10;

/// The Manhattan distance between two tiles.
pub open spec fn manhattan(p: Pos, q: Pos) -> int {
    (if p.0 >= q.0 {
        p.0 - q.0
    } else {
        q.0 - p.0
    }) + (if p.1 >= q.1 {
        p.1 - q.1
    } else {
        q.1 - p.1
    })
}

/// The Manhattan distance between two tiles.
pub fn manhattan_distance(p: Pos, q: Pos) -> (d: u16)
    ensures
        d == manhattan(p, q),
{
    let dx: u8 = if p.0 >= q.0 {
        p.0 - q.0
    } else {
        q.0 - p.0
    };
    let dy: u8 = if p.1 >= q.1 {
        p.1 - q.1
    } else {
        q.1 - p.1
    };
    dx as u16 + dy as u16
}

/// `p` is at least `MIN_DISTANCE` away from every skeleton.
pub open spec fn far_from_all(p: Pos, skeletons: Seq<Pos>) -> bool {
    forall|i: int| 0 <= i < skeletons.len() ==> manhattan(p, #[trigger] skeletons[i]) >= MIN_DISTANCE
}

/// The tiles the player may spawn on: floor tiles off the skeletons and at
/// least `MIN_DISTANCE` away from each, in row-major order.
pub open spec fn spawn_choices(grid: Seq<Vec<TileType>>, skeletons: Seq<Pos>) -> Seq<Pos> {
    keep(floor_tiles(grid, skeletons), |p: Pos| far_from_all(p, skeletons))
}

/// The tiles coins may go on: floor tiles off the skeletons and the player
/// that the table holds a route to from the player, in row-major order.
pub open spec fn coin_choices(
    grid: Seq<Vec<TileType>>,
    skeletons: Seq<Pos>,
    player: Pos,
    path_map: PathMap,
) -> Seq<Pos> {
    keep(floor_tiles(grid, skeletons.push(player)), |t: Pos| path_map.route(player, t) is Some)
}

/// `coins` is a draw of coins for a board: as many as fit, up to
/// `COINS_PER_BOARD`, each on a different coin choice.
pub open spec fn coins_generated(
    grid: Seq<Vec<TileType>>,
    skeletons: Seq<Pos>,
    player: Pos,
    path_map: PathMap,
    coins: Seq<Pos>,
) -> bool {
    let choices = coin_choices(grid, skeletons, player, path_map);
    &&& coins.len() == if COINS_PER_BOARD < choices.len() {
        COINS_PER_BOARD as int
    } else {
        choices.len() as int
    }
    &&& coins.no_duplicates()
    &&& forall|i: int| 0 <= i < coins.len() ==> choices.contains(#[trigger] coins[i])
}

/// Every coin choice is a floor tile off the skeletons and the player, with
/// a route from the player, and none comes twice.
pub proof fn lemma_coin_choices(
    grid: Seq<Vec<TileType>>,
    skeletons: Seq<Pos>,
    player: Pos,
    path_map: PathMap,
)
    ensures
        coin_choices(grid, skeletons, player, path_map).no_duplicates(),
        forall|p: Pos| #[trigger]
            coin_choices(grid, skeletons, player, path_map).contains(p) <==> (in_interior(p)
                && tile_at(grid, p) == TileType::Floor && !skeletons.contains(p) && p != player
                && path_map.route(player, p) is Some),
{
    let ex = skeletons.push(player);
    lemma_floor_tiles(grid, ex);
    lemma_keep(floor_tiles(grid, ex), |t: Pos| path_map.route(player, t) is Some);
    assert forall|p: Pos| #[trigger] ex.contains(p) <==> (skeletons.contains(p) || p == player) by {
        if ex.contains(p) && p != player {
            let i = choose|i: int| 0 <= i < ex.len() && ex[i] == p;
            assert(skeletons[i] == p);
        }
        if skeletons.contains(p) {
            let i = choose|i: int| 0 <= i < skeletons.len() && skeletons[i] == p;
            assert(ex[i] == p);
        }
        if p == player {
            assert(ex[skeletons.len() as int] == p);
        }
    }
}

/// Whether `p` is far enough from every skeleton.
fn is_far_from_all(p: Pos, skeletons: &[Pos]) -> (r: bool)
    ensures
        r == far_from_all(p, skeletons@),
{
    let mut i: usize = 0;
    while i < skeletons.len()
        invariant
            i <= skeletons.len(),
            forall|j: int| 0 <= j < i ==> manhattan(p, #[trigger] skeletons@[j]) >= MIN_DISTANCE,
        decreases skeletons.len() - i,
    {
        if manhattan_distance(skeletons[i], p) < MIN_DISTANCE as u16 {
            assert(manhattan(p, skeletons@[i as int]) == manhattan(skeletons@[i as int], p));
            return false;
        }
        i += 1;
    }
    true
}

/// `skeletons` is a draw of skeletons for `grid`: as many as the difficulty
/// asks for (or as there are floor tiles), on distinct floor tiles.
pub open spec fn skeletons_drawn(
    grid: Seq<Vec<TileType>>,
    difficulty: DifficultyParameters,
    skeletons: Seq<Pos>,
) -> bool {
    &&& skeletons.len() == if difficulty.skeleton_count < floor_tiles(grid, seq![]).len() {
        difficulty.skeleton_count as int
    } else {
        floor_tiles(grid, seq![]).len() as int
    }
    &&& skeletons.no_duplicates()
    &&& forall|i: int|
        0 <= i < skeletons.len() ==> floor_tiles(grid, seq![]).contains(#[trigger] skeletons[i])
}

/// Drop the difficulty's number of skeletons onto random floor tiles.
pub fn generate_skeletons(
    grid: &[Vec<TileType>],
    difficulty: DifficultyParameters,
    rng: &mut StdRng,
) -> (skeletons: Vec<Pos>)
    requires
        covers_interior(grid@),
    ensures
        skeletons_drawn(grid@, difficulty, skeletons@),
{
    let nothing: Vec<Pos> = Vec::new();
    let floor = get_floor_tiles(grid, nothing.as_slice());
    assert(nothing@ =~= seq![]);
    let skeletons = pick_many(rng, floor.as_slice(), difficulty.skeleton_count as usize);
    proof {
        lemma_floor_tiles(grid@, seq![]);
        let idx = choose|idx: Seq<int>| #[trigger] picked_from(floor@, skeletons@, idx);
        lemma_picked(floor@, skeletons@, idx);
    }
    skeletons
}

/// Scatter coins on floor tiles the player can actually reach: the path map
/// filters out every tile walled off in a pocket the player cannot get to.
pub fn generate_coins(
    grid: &[Vec<TileType>],
    skeletons: &[Pos],
    player_pos: &Pos,
    rng: &mut StdRng,
    path_map: &PathMap,
) -> (coins: Vec<Pos>)
    requires
        covers_interior(grid@),
        path_map.wf(),
        floor_tiles(grid@, skeletons@.push(*player_pos)).len() > 0 ==> path_map.has_source(
            *player_pos,
        ),
    ensures
        coins_generated(grid@, skeletons@, *player_pos, *path_map, coins@),
{
    let mut exclude: Vec<Pos> = Vec::new();
    let mut i: usize = 0;
    while i < skeletons.len()
        invariant
            i <= skeletons.len(),
            exclude@ == skeletons@.subrange(0, i as int),
        decreases skeletons.len() - i,
    {
        exclude.push(skeletons[i]);
        i += 1;
    }
    exclude.push(*player_pos);
    assert(exclude@ =~= skeletons@.push(*player_pos));
    let floor = get_floor_tiles(grid, exclude.as_slice());
    let ghost f = |t: Pos| path_map.route(*player_pos, t) is Some;
    let mut candidates: Vec<Pos> = Vec::new();
    let mut j: usize = 0;
    while j < floor.len()
        invariant
            j <= floor@.len(),
            path_map.wf(),
            floor@.len() > 0 ==> path_map.has_source(*player_pos),
            f == (|t: Pos| path_map.route(*player_pos, t) is Some),
            candidates@ == keep(floor@.subrange(0, j as int), f),
        decreases floor@.len() - j,
    {
        assert(floor@.subrange(0, j + 1).drop_last() =~= floor@.subrange(0, j as int));
        if path_map.contains_route(*player_pos, floor[j]) {
            candidates.push(floor[j]);
        }
        j += 1;
    }
    assert(floor@.subrange(0, floor@.len() as int) =~= floor@);
    let n = if COINS_PER_BOARD < candidates.len() {
        COINS_PER_BOARD
    } else {
        candidates.len()
    };
    let coins = pick_many(rng, candidates.as_slice(), n);
    proof {
        lemma_floor_tiles(grid@, skeletons@.push(*player_pos));
        lemma_keep(floor@, f);
        let idx = choose|idx: Seq<int>| #[trigger] picked_from(candidates@, coins@, idx);
        lemma_picked(candidates@, coins@, idx);
    }
    coins
}

/// The tiles the player may spawn on, as [`spawn_choices`] describes them.
pub fn spawn_candidates(grid: &[Vec<TileType>], skeletons: &[Pos]) -> (candidates: Vec<Pos>)
    requires
        covers_interior(grid@),
    ensures
        candidates@ == spawn_choices(grid@, skeletons@),
{
    let floor = get_floor_tiles(grid, skeletons);
    let ghost f = |q: Pos| far_from_all(q, skeletons@);
    let mut candidates: Vec<Pos> = Vec::new();
    let mut j: usize = 0;
    while j < floor.len()
        invariant
            j <= floor@.len(),
            f == (|q: Pos| far_from_all(q, skeletons@)),
            candidates@ == keep(floor@.subrange(0, j as int), f),
        decreases floor@.len() - j,
    {
        assert(floor@.subrange(0, j + 1).drop_last() =~= floor@.subrange(0, j as int));
        if is_far_from_all(floor[j], skeletons) {
            candidates.push(floor[j]);
        }
        j += 1;
    }
    assert(floor@.subrange(0, floor@.len() as int) =~= floor@);
    candidates
}

/// Every spawn choice is a floor tile off the skeletons, far from each,
/// and none comes twice.
pub proof fn lemma_spawn_choices(grid: Seq<Vec<TileType>>, skeletons: Seq<Pos>)
    ensures
        spawn_choices(grid, skeletons).no_duplicates(),
        spawn_choices(grid, skeletons).len() <= floor_tiles(grid, skeletons).len(),
        forall|p: Pos| #[trigger]
            spawn_choices(grid, skeletons).contains(p) <==> (in_interior(p) && tile_at(grid, p)
                == TileType::Floor && !skeletons.contains(p) && far_from_all(p, skeletons)),
{
    lemma_floor_tiles(grid, skeletons);
    lemma_keep(floor_tiles(grid, skeletons), |q: Pos| far_from_all(q, skeletons));
}

/// Pick a start tile at least `MIN_DISTANCE` away from every skeleton. If
/// the map is too cramped to manage that, fall back to the first floor tile
/// off the skeletons.
pub fn spawn_player(grid: &[Vec<TileType>], skeletons: &[Pos], rng: &mut StdRng) -> (p: Pos)
    requires
        covers_interior(grid@),
        floor_tiles(grid@, skeletons@).len() > 0,
    ensures
        spawn_choices(grid@, skeletons@).len() > 0 ==> spawn_choices(grid@, skeletons@).contains(p),
        spawn_choices(grid@, skeletons@).len() == 0 ==> p == floor_tiles(grid@, skeletons@)[0],
        in_interior(p),
        tile_at(grid@, p) == TileType::Floor,
        !skeletons@.contains(p),
{
    let candidates = spawn_candidates(grid, skeletons);
    proof {
        lemma_floor_tiles(grid@, skeletons@);
        lemma_spawn_choices(grid@, skeletons@);
    }
    match pick_one(rng, candidates.as_slice()) {
        Some(p) => p,
        None => {
            let floor = get_floor_tiles(grid, skeletons);
            let p = floor[0];
            assert(floor@.contains(floor@[0]));
            p
        },
    }
}

} // verus!
