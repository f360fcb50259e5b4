//! The dungeon grid: tile kinds, positions, and the floor tiles of a grid.

use vstd::prelude::*;
use rand::rngs::StdRng;
use crate::random::random_ratio;

verus! {

/// Dungeon width in tiles. The outermost ring is always wall.
pub const GRID_WIDTH: u8 = 20;
/// Dungeon height in tiles.
pub const GRID_HEIGHT: u8 = 12;

/// The chance that an interior tile becomes an obstacle is
/// `OBSTACLE_CHANCE_NUMERATOR / OBSTACLE_CHANCE_DENOMINATOR`.
pub const OBSTACLE_CHANCE_NUMERATOR: u32 = 1;
pub const OBSTACLE_CHANCE_DENOMINATOR: u32 = 10;

/// A tile coordinate `(x, y)`.
pub type Pos = (u8, u8);

/// What sits in a grid cell. Walls and obstacles block movement; only floor
/// is walkable.
#[derive(PartialEq, Eq, Structural, Clone, Copy, Debug)]
pub enum TileType {
    Floor,
    Wall,
    Obstacle,
}

/// `p` lies on the board.
pub open spec fn in_board(p: Pos) -> bool {
    p.0 < GRID_WIDTH && p.1 < GRID_HEIGHT
}

/// `p` lies inside the outer ring of the board.
pub open spec fn in_interior(p: Pos) -> bool {
    1 <= p.0 < GRID_WIDTH - 1 && 1 <= p.1 < GRID_HEIGHT - 1
}

/// The tile at `p`.
pub open spec fn tile_at(grid: Seq<Vec<TileType>>, p: Pos) -> TileType {
    grid[p.1 as int]@[p.0 as int]
}

/// `p` is a floor tile of the board.
pub open spec fn is_floor(grid: Seq<Vec<TileType>>, p: Pos) -> bool {
    in_board(p) && tile_at(grid, p) == TileType::Floor
}

/// The grid has every interior cell.
pub open spec fn covers_interior(grid: Seq<Vec<TileType>>) -> bool {
    &&& grid.len() >= GRID_HEIGHT - 1
    &&& forall|y: int| 1 <= y < GRID_HEIGHT - 1 ==> #[trigger] grid[y]@.len() >= GRID_WIDTH - 1
}

/// The grid has every cell of the board.
pub open spec fn covers_board(grid: Seq<Vec<TileType>>) -> bool {
    &&& grid.len() >= GRID_HEIGHT
    &&& forall|y: int| 0 <= y < GRID_HEIGHT ==> #[trigger] grid[y]@.len() >= GRID_WIDTH
}

/// A dungeon as the generator makes it: exactly the board, walls all round
/// the edge and nothing but floor and obstacles inside.
pub open spec fn is_dungeon(grid: Seq<Vec<TileType>>) -> bool {
    &&& grid.len() == GRID_HEIGHT
    &&& forall|y: int| 0 <= y < GRID_HEIGHT ==> #[trigger] grid[y]@.len() == GRID_WIDTH
    &&& forall|p: Pos| #![trigger tile_at(grid, p)] in_board(p) ==>
            (tile_at(grid, p) == TileType::Wall <==> !in_interior(p))
}

/// The number of interior cells: one obstacle draw each.
pub const INTERIOR_CELLS: usize = 180;

/// The number of interior cells.
pub open spec fn interior_count() -> nat {
    ((GRID_WIDTH - 2) * (GRID_HEIGHT - 2)) as nat
}

/// The `k`-th interior cell in row-major order.
pub open spec fn interior_cell(k: int) -> Pos {
    ((1 + k % (GRID_WIDTH - 2)) as u8, (1 + k / (GRID_WIDTH - 2)) as u8)
}

/// The floor tiles among the first `k` interior cells, in row-major order,
/// leaving out those in `exclude`.
pub open spec fn floor_tiles_upto(grid: Seq<Vec<TileType>>, exclude: Seq<Pos>, k: nat) -> Seq<Pos>
    decreases k,
{
    if k == 0 {
        Seq::empty()
    } else {
        let prev = floor_tiles_upto(grid, exclude, (k - 1) as nat);
        let p = interior_cell(k - 1);
        if tile_at(grid, p) == TileType::Floor && !exclude.contains(p) {
            prev.push(p)
        } else {
            prev
        }
    }
}

/// Every interior floor tile not in `exclude`, in row-major order.
pub open spec fn floor_tiles(grid: Seq<Vec<TileType>>, exclude: Seq<Pos>) -> Seq<Pos> {
    floor_tiles_upto(grid, exclude, interior_count())
}

/// Where an interior tile comes in row-major order.
pub open spec fn interior_rank(p: Pos) -> int {
    (p.1 - 1) * (GRID_WIDTH - 2) + (p.0 - 1)
}

proof fn lemma_interior_cell(k: int)
    requires
        0 <= k < interior_count(),
    ensures
        in_interior(interior_cell(k)),
        interior_rank(interior_cell(k)) == k,
{
    assert(0 <= k % 18 < 18 && 0 <= k / 18 < 10 && (k / 18) * 18 + k % 18 == k) by (nonlinear_arith)
        requires
            0 <= k < 180,
    ;
}

proof fn lemma_interior_rank(p: Pos)
    requires
        in_interior(p),
    ensures
        0 <= interior_rank(p) < interior_count(),
        interior_cell(interior_rank(p)) == p,
{
    let k = interior_rank(p);
    assert(k % 18 == p.0 - 1 && k / 18 == p.1 - 1) by (nonlinear_arith)
        requires
            k == (p.1 - 1) * 18 + (p.0 - 1),
            1 <= p.0 < 19,
            1 <= p.1 < 11,
    ;
}

/// The floor tiles among the first `k` interior cells are exactly the
/// interior floor tiles of lower rank not in `exclude`, each once.
proof fn lemma_floor_tiles_upto(grid: Seq<Vec<TileType>>, exclude: Seq<Pos>, k: nat)
    requires
        k <= interior_count(),
    ensures
        floor_tiles_upto(grid, exclude, k).no_duplicates(),
        forall|p: Pos| #[trigger]
            floor_tiles_upto(grid, exclude, k).contains(p) <==> (in_interior(p) && interior_rank(p)
                < k && tile_at(grid, p) == TileType::Floor && !exclude.contains(p)),
    decreases k,
{
    if k > 0 {
        let prev = floor_tiles_upto(grid, exclude, (k - 1) as nat);
        lemma_floor_tiles_upto(grid, exclude, (k - 1) as nat);
        let c = interior_cell(k - 1);
        lemma_interior_cell(k - 1);
        let cur = floor_tiles_upto(grid, exclude, k);
        assert forall|p: Pos| #[trigger] cur.contains(p) <==> (in_interior(p) && interior_rank(p)
            < k && tile_at(grid, p) == TileType::Floor && !exclude.contains(p)) by {
            if in_interior(p) {
                lemma_interior_rank(p);
            }
            if cur.contains(p) && p != c {
                let i = choose|i: int| 0 <= i < cur.len() && cur[i] == p;
                if i < prev.len() {
                    assert(prev[i] == p);
                    assert(prev.contains(p));
                }
            }
            if prev.contains(p) {
                let i = choose|i: int| 0 <= i < prev.len() && prev[i] == p;
                assert(cur[i] == p);
            }
            if p == c && cur.len() > prev.len() {
                assert(cur[prev.len() as int] == p);
            }
        }
        assert forall|i: int, j: int| 0 <= i < cur.len() && 0 <= j < cur.len() && i != j implies cur[i]
            != cur[j] by {
            if i < prev.len() && j < prev.len() {
            } else if i < prev.len() {
                assert(prev.contains(prev[i]));
            } else {
                assert(prev.contains(prev[j]));
            }
        }
    }
}

/// The floor tiles of a grid, less `exclude`, hold every interior floor tile
/// not in `exclude`, each once, and nothing else.
pub proof fn lemma_floor_tiles(grid: Seq<Vec<TileType>>, exclude: Seq<Pos>)
    ensures
        floor_tiles(grid, exclude).no_duplicates(),
        forall|p: Pos| #[trigger]
            floor_tiles(grid, exclude).contains(p) <==> (in_interior(p) && tile_at(grid, p)
                == TileType::Floor && !exclude.contains(p)),
{
    lemma_floor_tiles_upto(grid, exclude, interior_count());
    assert forall|p: Pos| in_interior(p) implies interior_rank(p) < interior_count() by {
        lemma_interior_rank(p);
    }
}

/// The elements of `s` that satisfy `f`, in order.
pub open spec fn keep(s: Seq<Pos>, f: spec_fn(Pos) -> bool) -> Seq<Pos>
    decreases s.len(),
{
    if s.len() == 0 {
        s
    } else {
        let prev = keep(s.drop_last(), f);
        if f(s.last()) {
            prev.push(s.last())
        } else {
            prev
        }
    }
}

/// `keep` holds exactly the elements of `s` that satisfy `f`, no more often
/// than `s` does.
pub proof fn lemma_keep(s: Seq<Pos>, f: spec_fn(Pos) -> bool)
    ensures
        keep(s, f).len() <= s.len(),
        forall|p: Pos| #[trigger] keep(s, f).contains(p) <==> (s.contains(p) && f(p)),
        s.no_duplicates() ==> keep(s, f).no_duplicates(),
    decreases s.len(),
{
    if s.len() > 0 {
        let prev = keep(s.drop_last(), f);
        lemma_keep(s.drop_last(), f);
        let cur = keep(s, f);
        assert forall|p: Pos| #[trigger] cur.contains(p) <==> (s.contains(p) && f(p)) by {
            if s.contains(p) {
                let i = choose|i: int| 0 <= i < s.len() && s[i] == p;
                if i < s.len() - 1 {
                    assert(s.drop_last()[i] == p);
                    assert(s.drop_last().contains(p));
                }
            }
            if s.drop_last().contains(p) {
                let i = choose|i: int| 0 <= i < s.drop_last().len() && s.drop_last()[i] == p;
                assert(s[i] == p);
            }
            if prev.contains(p) {
                let i = choose|i: int| 0 <= i < prev.len() && prev[i] == p;
                assert(cur[i] == p);
            }
            if cur.contains(p) {
                let i = choose|i: int| 0 <= i < cur.len() && cur[i] == p;
                if i < prev.len() {
                    assert(prev[i] == p);
                    assert(prev.contains(p));
                }
            }
            if f(s.last()) && p == s.last() {
                assert(cur[prev.len() as int] == p);
            }
        }
        if s.no_duplicates() && f(s.last()) {
            assert(!s.drop_last().contains(s.last()));
            assert(!prev.contains(s.last()));
            assert forall|i: int, j: int| 0 <= i < cur.len() && 0 <= j < cur.len() && i != j implies cur[i]
                != cur[j] by {
                if i < prev.len() && j < prev.len() {
                } else if i < prev.len() {
                    assert(prev.contains(prev[i]));
                } else {
                    assert(prev.contains(prev[j]));
                }
            }
        }
    }
}

/// Whether `s` holds `p`.
pub fn contains_pos(s: &[Pos], p: Pos) -> (r: bool)
    ensures
        r == s@.contains(p),
{
    let mut i: usize = 0;
    while i < s.len()
        invariant
            i <= s.len(),
            forall|j: int| 0 <= j < i ==> s@[j] != p,
        decreases s.len() - i,
    {
        if s[i].0 == p.0 && s[i].1 == p.1 {
            return true;
        }
        i += 1;
    }
    false
}

/// Every walkable interior tile, minus anything in `exclude`, in row-major
/// order.
pub fn get_floor_tiles(grid: &[Vec<TileType>], exclude: &[Pos]) -> (tiles: Vec<Pos>)
    requires
        covers_interior(grid@),
    ensures
        tiles@ == floor_tiles(grid@, exclude@),
{
    let mut tiles: Vec<Pos> = Vec::new();
    let mut y: u8 = 1;
    while y < GRID_HEIGHT - 1
        invariant
            1 <= y <= GRID_HEIGHT - 1,
            covers_interior(grid@),
            tiles@ == floor_tiles_upto(grid@, exclude@, ((y - 1) * (GRID_WIDTH - 2)) as nat),
        decreases GRID_HEIGHT - y,
    {
        let mut x: u8 = 1;
        while x < GRID_WIDTH - 1
            invariant
                1 <= y < GRID_HEIGHT - 1,
                1 <= x <= GRID_WIDTH - 1,
                covers_interior(grid@),
                tiles@ == floor_tiles_upto(
                    grid@,
                    exclude@,
                    ((y - 1) * (GRID_WIDTH - 2) + x - 1) as nat,
                ),
            decreases GRID_WIDTH - x,
        {
            let ghost k: int = (y - 1) * (GRID_WIDTH - 2) + x - 1;
            assert(k % 18 == x - 1 && k / 18 == y - 1) by (nonlinear_arith)
                requires
                    k == (y - 1) * 18 + x - 1,
                    1 <= x < 19,
                    1 <= y < 11,
            ;
            assert(interior_cell(k) == (x, y));
            let row = &grid[y as usize];
            let is_floor_tile = match row[x as usize] {
                TileType::Floor => true,
                _ => false,
            };
            if is_floor_tile && !contains_pos(exclude, (x, y)) {
                tiles.push((x, y));
            }
            x += 1;
        }
        assert((y - 1) * (GRID_WIDTH - 2) + GRID_WIDTH - 1 - 1 == y * (GRID_WIDTH - 2)) by (nonlinear_arith);
        y += 1;
    }
    tiles
}

/// The tile an interior cell gets from its draw: an obstacle when the draw
/// came up, floor otherwise.
pub open spec fn drawn_tile(draw: bool) -> TileType {
    if draw {
        TileType::Obstacle
    } else {
        TileType::Floor
    }
}

/// `grid` is the dungeon that `draws` make: walls round the edge, and each
/// interior cell the tile of its own draw, the draws taken in row-major order.
pub open spec fn grid_of_draws(grid: Seq<Vec<TileType>>, draws: Seq<bool>) -> bool {
    &&& is_dungeon(grid)
    &&& forall|p: Pos| #[trigger] in_interior(p) ==> tile_at(grid, p) == drawn_tile(draws[interior_rank(p)])
}

/// Lay out the dungeon for one draw per interior cell (row-major order):
/// a solid wall border, and each interior cell an obstacle where its draw
/// came up, floor otherwise.
pub fn grid_from_draws(draws: &[bool]) -> (grid: Vec<Vec<TileType>>)
    requires
        draws@.len() == interior_count(),
    ensures
        grid_of_draws(grid@, draws@),
{
    let mut grid: Vec<Vec<TileType>> = Vec::new();
    let mut y: u8 = 0;
    while y < GRID_HEIGHT
        invariant
            draws@.len() == interior_count(),
            y <= GRID_HEIGHT,
            grid@.len() == y,
            forall|j: int| 0 <= j < y ==> #[trigger] grid@[j]@.len() == GRID_WIDTH,
            forall|p: Pos| #![trigger tile_at(grid@, p)] in_board(p) && p.1 < y ==>
                (tile_at(grid@, p) == TileType::Wall <==> !in_interior(p)),
            forall|p: Pos| #![trigger tile_at(grid@, p)] in_interior(p) && p.1 < y ==>
                tile_at(grid@, p) == drawn_tile(draws@[interior_rank(p)]),
        decreases GRID_HEIGHT - y,
    {
        let mut row: Vec<TileType> = Vec::new();
        let mut x: u8 = 0;
        while x < GRID_WIDTH
            invariant
                draws@.len() == interior_count(),
                y < GRID_HEIGHT,
                x <= GRID_WIDTH,
                row@.len() == x,
                forall|i: int| 0 <= i < x ==>
                    (#[trigger] row@[i] == TileType::Wall <==> !in_interior((i as u8, y))),
                forall|i: int| 0 <= i < x && in_interior((i as u8, y)) ==>
                    #[trigger] row@[i] == drawn_tile(draws@[interior_rank((i as u8, y))]),
            decreases GRID_WIDTH - x,
        {
            if x == 0 || x == GRID_WIDTH - 1 || y == 0 || y == GRID_HEIGHT - 1 {
                row.push(TileType::Wall);
            } else {
                assert(0 <= (y - 1) * 18 + (x - 1) < 180) by (nonlinear_arith)
                    requires
                        1 <= y <= 10,
                        1 <= x <= 18,
                ;
                let k: usize = (y as usize - 1) * 18 + (x as usize - 1);
                assert(k == interior_rank((x, y)));
                if draws[k] {
                    row.push(TileType::Obstacle);
                } else {
                    row.push(TileType::Floor);
                }
            }
            assert(((x as int) as u8) == x);
            x += 1;
        }
        let ghost old_grid = grid@;
        grid.push(row);
        assert forall|p: Pos| #![trigger tile_at(grid@, p)] in_board(p) && p.1 < y + 1 implies {
            &&& (tile_at(grid@, p) == TileType::Wall <==> !in_interior(p))
            &&& in_interior(p) ==> tile_at(grid@, p) == drawn_tile(draws@[interior_rank(p)])
        } by {
            if p.1 < y {
                assert(tile_at(grid@, p) == tile_at(old_grid, p));
            } else {
                assert(tile_at(grid@, p) == row@[p.0 as int]);
                assert((p.0 as int) as u8 == p.0);
            }
        }
        y += 1;
    }
    grid
}

/// Build a fresh dungeon: a solid wall border, floor inside, with some
/// interior tiles randomly turned into obstacles. One draw is made per
/// interior cell, in row-major order, each coming up with chance
/// `OBSTACLE_CHANCE_NUMERATOR / OBSTACLE_CHANCE_DENOMINATOR`; the grid is
/// `grid_from_draws` of them.
pub fn generate_grid(rng: &mut StdRng) -> (grid: Vec<Vec<TileType>>)
    ensures
        is_dungeon(grid@),
        exists|draws: Seq<bool>|
            draws.len() == interior_count() && #[trigger] grid_of_draws(grid@, draws),
{
    let mut draws: Vec<bool> = Vec::new();
    let mut k: usize = 0;
    while k < INTERIOR_CELLS
        invariant
            k <= INTERIOR_CELLS,
            draws@.len() == k,
        decreases INTERIOR_CELLS - k,
    {
        draws.push(random_ratio(rng, OBSTACLE_CHANCE_NUMERATOR, OBSTACLE_CHANCE_DENOMINATOR));
        k += 1;
    }
    grid_from_draws(draws.as_slice())
}

} // verus!
