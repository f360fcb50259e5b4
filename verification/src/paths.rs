//! Walks on the floor of a dungeon, breadth-first search, and the
//! next-step table that skeletons chase the player with.

use vstd::prelude::*;
use crate::grid::{covers_board, in_board, is_floor, tile_at, Pos, TileType, GRID_HEIGHT, GRID_WIDTH};

verus! {

/// The number of tiles on the board.
pub const BOARD_TILES: usize = 240;

/// The slot of an on-board tile in a row-major table of the board.
pub open spec fn tile_index(p: Pos) -> int {
    p.1 * GRID_WIDTH + p.0
}

/// The tile whose slot is `i`.
pub open spec fn tile_of(i: int) -> Pos {
    ((i % GRID_WIDTH as int) as u8, (i / GRID_WIDTH as int) as u8)
}

/// Slots and on-board tiles correspond one to one.
pub proof fn lemma_tile_index(p: Pos)
    requires
        in_board(p),
    ensures
        0 <= tile_index(p) < BOARD_TILES,
        tile_of(tile_index(p)) == p,
{
    let i = tile_index(p);
    assert(i % 20 == p.0 && i / 20 == p.1) by (nonlinear_arith)
        requires
            i == p.1 * 20 + p.0,
            0 <= p.0 < 20,
            0 <= p.1 < 12,
    ;
}

/// Every slot of the table belongs to an on-board tile.
pub proof fn lemma_tile_of(i: int)
    requires
        0 <= i < BOARD_TILES,
    ensures
        in_board(tile_of(i)),
        tile_index(tile_of(i)) == i,
{
    assert(0 <= i % 20 < 20 && 0 <= i / 20 < 12 && (i / 20) * 20 + i % 20 == i) by (nonlinear_arith)
        requires
            0 <= i < 240,
    ;
}

/// Two distinct on-board tiles have distinct slots.
pub proof fn lemma_tile_index_injective(p: Pos, q: Pos)
    requires
        in_board(p),
        in_board(q),
        p != q,
    ensures
        tile_index(p) != tile_index(q),
{
    lemma_tile_index(p);
    lemma_tile_index(q);
}

/// The slot of an on-board tile.
pub fn index_of(p: Pos) -> (i: usize)
    requires
        in_board(p),
    ensures
        i == tile_index(p),
        i < BOARD_TILES,
{
    proof {
        lemma_tile_index(p);
    }
    p.1 as usize * GRID_WIDTH as usize + p.0 as usize
}

/// `p` and `q` are one tile apart, horizontally or vertically.
pub open spec fn adjacent(p: Pos, q: Pos) -> bool {
    ||| p.0 == q.0 && (p.1 + 1 == q.1 || q.1 + 1 == p.1)
    ||| p.1 == q.1 && (p.0 + 1 == q.0 || q.0 + 1 == p.0)
}

/// One may step from `p` onto `q`: they are adjacent and `q` is floor.
pub open spec fn can_step(grid: Seq<Vec<TileType>>, p: Pos, q: Pos) -> bool {
    adjacent(p, q) && is_floor(grid, q)
}

/// `w` is a walk: every tile after the first is a step from the one before.
pub open spec fn is_walk(grid: Seq<Vec<TileType>>, w: Seq<Pos>) -> bool {
    &&& w.len() >= 1
    &&& forall|i: int| 0 <= i < w.len() - 1 ==> #[trigger] can_step(grid, w[i], w[i + 1])
}

/// There is a walk of `n` steps from `s` to `t`.
pub open spec fn walk_of_len(grid: Seq<Vec<TileType>>, s: Pos, t: Pos, n: nat) -> bool {
    exists|w: Seq<Pos>|
        #[trigger] is_walk(grid, w) && w.len() == n + 1 && w[0] == s && w.last() == t
}

/// `t` can be reached from `s`.
pub open spec fn reachable(grid: Seq<Vec<TileType>>, s: Pos, t: Pos) -> bool {
    exists|n: nat| #[trigger] walk_of_len(grid, s, t, n)
}

/// The shortest walk from `s` to `t` has `n` steps.
pub open spec fn shortest(grid: Seq<Vec<TileType>>, s: Pos, t: Pos, n: nat) -> bool {
    &&& walk_of_len(grid, s, t, n)
    &&& forall|m: nat| m < n ==> !#[trigger] walk_of_len(grid, s, t, m)
}

/// `step` is the first tile of a shortest walk from `s` to `t`: one steps
/// onto it from `s`, and from it `t` is one step nearer.
pub open spec fn first_step_of_shortest(grid: Seq<Vec<TileType>>, s: Pos, t: Pos, step: Pos) -> bool {
    &&& can_step(grid, s, step)
    &&& exists|n: nat| #[trigger] shortest(grid, s, t, n) && walk_of_len(grid, step, t, (n - 1) as nat)
}

/// One step is a walk.
pub proof fn lemma_step_reachable(grid: Seq<Vec<TileType>>, a: Pos, b: Pos)
    requires
        can_step(grid, a, b),
    ensures
        reachable(grid, a, b),
{
    let w = seq![a, b];
    assert(can_step(grid, w[0], w[0int + 1]));
    assert(is_walk(grid, w));
    assert(walk_of_len(grid, a, b, 1));
}

/// Walks chain: what `b` reaches, whatever reaches `b` reaches too.
pub proof fn lemma_reachable_trans(grid: Seq<Vec<TileType>>, a: Pos, b: Pos, c: Pos)
    requires
        reachable(grid, a, b),
        reachable(grid, b, c),
    ensures
        reachable(grid, a, c),
{
    let n1 = choose|n: nat| #[trigger] walk_of_len(grid, a, b, n);
    let w1 = choose|w: Seq<Pos>| #[trigger] is_walk(grid, w) && w.len() == n1 + 1 && w[0] == a && w.last() == b;
    let n2 = choose|n: nat| #[trigger] walk_of_len(grid, b, c, n);
    let w2 = choose|w: Seq<Pos>| #[trigger] is_walk(grid, w) && w.len() == n2 + 1 && w[0] == b && w.last() == c;
    let w = w1 + w2.drop_first();
    assert forall|i: int| 0 <= i < w.len() - 1 implies #[trigger] can_step(grid, w[i], w[i + 1]) by {
        if i < w1.len() - 1 {
            assert(w[i] == w1[i] && w[i + 1] == w1[i + 1]);
            assert(can_step(grid, w1[i], w1[i + 1]));
        } else if i == w1.len() - 1 {
            assert(w[i] == w2[0] && w[i + 1] == w2[0int + 1]);
            assert(can_step(grid, w2[0], w2[0int + 1]));
        } else {
            let k = i - w1.len() + 1;
            assert(w[i] == w2[k] && w[i + 1] == w2[k + 1]);
            assert(can_step(grid, w2[k], w2[k + 1]));
        }
    }
    if n2 == 0 {
        assert(w =~= w1);
    } else {
        assert(w.last() == w2.last());
    }
    assert(w[0] == a);
    assert(is_walk(grid, w));
    assert(walk_of_len(grid, a, c, n1 + n2));
}

/// Between floor tiles, walks go both ways.
pub proof fn lemma_reachable_symm(grid: Seq<Vec<TileType>>, a: Pos, b: Pos)
    requires
        is_floor(grid, a),
        reachable(grid, a, b),
    ensures
        reachable(grid, b, a),
{
    let n = choose|n: nat| #[trigger] walk_of_len(grid, a, b, n);
    let w = choose|w: Seq<Pos>| #[trigger] is_walk(grid, w) && w.len() == n + 1 && w[0] == a && w.last() == b;
    let r = w.reverse();
    assert forall|i: int| 0 <= i < r.len() - 1 implies #[trigger] can_step(grid, r[i], r[i + 1]) by {
        let j = w.len() - 2 - i;
        assert(r[i] == w[j + 1] && r[i + 1] == w[j]);
        assert(can_step(grid, w[j], w[j + 1]));
        if j > 0 {
            assert(can_step(grid, w[j - 1], w[(j - 1) + 1]));
        }
    }
    assert(r[0] == b && r.last() == a);
    assert(is_walk(grid, r));
    assert(walk_of_len(grid, b, a, n));
}

/// The rank of the step from `p` to the adjacent `q` in the search order:
/// right, left, down, up.
pub open spec fn step_rank(p: Pos, q: Pos) -> int {
    if q.0 == p.0 + 1 && q.1 == p.1 {
        0
    } else if q.0 + 1 == p.0 && q.1 == p.1 {
        1
    } else if q.0 == p.0 && q.1 == p.1 + 1 {
        2
    } else {
        3
    }
}

/// `a` and `b` agree up to index `k`, and there `a` turns off in a
/// direction of lower rank than `b`.
pub open spec fn diverge_at(a: Seq<Pos>, b: Seq<Pos>, k: int) -> bool {
    &&& 0 <= k
    &&& k + 1 < a.len()
    &&& k + 1 < b.len()
    &&& forall|i: int| 0 <= i <= k ==> #[trigger] a[i] == b[i]
    &&& step_rank(a[k], a[k + 1]) < step_rank(b[k], b[k + 1])
}

/// Walk `a` comes before walk `b`: compared step by step, `a` first takes a
/// direction of lower rank.
pub open spec fn walk_before(a: Seq<Pos>, b: Seq<Pos>) -> bool {
    exists|k: int| #[trigger] diverge_at(a, b, k)
}

/// `w` is the first of the shortest walks from `s` to `t`, directions
/// ranked right, left, down, up.
pub open spec fn least_shortest_walk(grid: Seq<Vec<TileType>>, s: Pos, t: Pos, w: Seq<Pos>) -> bool {
    &&& is_walk(grid, w)
    &&& w[0] == s
    &&& w.last() == t
    &&& shortest(grid, s, t, (w.len() - 1) as nat)
    &&& forall|w2: Seq<Pos>|
        #[trigger] is_walk(grid, w2) && w2.len() == w.len() && w2[0] == s && w2.last() == t ==> w2
            == w || walk_before(w, w2)
}

proof fn lemma_before_push(a: Seq<Pos>, b: Seq<Pos>, x: Pos, y: Pos)
    requires
        walk_before(a, b),
    ensures
        walk_before(a.push(x), b.push(y)),
{
    let k = choose|k: int| #[trigger] diverge_at(a, b, k);
    let a2 = a.push(x);
    let b2 = b.push(y);
    assert forall|i: int| 0 <= i <= k implies #[trigger] a2[i] == b2[i] by {
        assert(a[i] == b[i]);
    }
    assert(a2[k] == a[k] && a2[k + 1] == a[k + 1] && b2[k] == b[k] && b2[k + 1] == b[k + 1]);
    assert(diverge_at(a2, b2, k));
}

proof fn lemma_before_last_step(a: Seq<Pos>, x: Pos, y: Pos)
    requires
        a.len() >= 1,
        step_rank(a.last(), x) < step_rank(a.last(), y),
    ensures
        walk_before(a.push(x), a.push(y)),
{
    let k = a.len() - 1;
    let a2 = a.push(x);
    let b2 = a.push(y);
    assert forall|i: int| 0 <= i <= k implies #[trigger] a2[i] == b2[i] by {}
    assert(diverge_at(a2, b2, k));
}

proof fn lemma_before_trans(a: Seq<Pos>, b: Seq<Pos>, c: Seq<Pos>)
    requires
        walk_before(a, b),
        walk_before(b, c),
    ensures
        walk_before(a, c),
{
    let k1 = choose|k: int| #[trigger] diverge_at(a, b, k);
    let k2 = choose|k: int| #[trigger] diverge_at(b, c, k);
    if k1 < k2 {
        assert forall|i: int| 0 <= i <= k1 implies #[trigger] a[i] == c[i] by {
            assert(a[i] == b[i]);
            assert(b[i] == c[i]);
        }
        assert(b[k1] == c[k1]);
        assert(b[k1 + 1] == c[k1 + 1]);
        assert(diverge_at(a, c, k1));
    } else if k2 < k1 {
        assert forall|i: int| 0 <= i <= k2 implies #[trigger] a[i] == c[i] by {
            assert(a[i] == b[i]);
            assert(b[i] == c[i]);
        }
        assert(a[k2] == b[k2]);
        assert(a[k2 + 1] == b[k2 + 1]);
        assert(diverge_at(a, c, k2));
    } else {
        assert forall|i: int| 0 <= i <= k1 implies #[trigger] a[i] == c[i] by {
            assert(a[i] == b[i]);
            assert(b[i] == c[i]);
        }
        assert(a[k1] == b[k1]);
        assert(diverge_at(a, c, k1));
    }
}

proof fn lemma_before_asym(a: Seq<Pos>, b: Seq<Pos>)
    requires
        walk_before(a, b),
    ensures
        !walk_before(b, a),
{
    let k1 = choose|k: int| #[trigger] diverge_at(a, b, k);
    if walk_before(b, a) {
        let k2 = choose|k: int| #[trigger] diverge_at(b, a, k);
        if k1 < k2 {
            assert(b[k1] == a[k1]);
            assert(b[k1 + 1] == a[k1 + 1]);
        } else if k2 < k1 {
            assert(a[k2] == b[k2]);
            assert(a[k2 + 1] == b[k2 + 1]);
        }
    }
}

/// A shortest walk has one length.
proof fn lemma_shortest_unique(grid: Seq<Vec<TileType>>, s: Pos, t: Pos, n1: nat, n2: nat)
    requires
        shortest(grid, s, t, n1),
        shortest(grid, s, t, n2),
    ensures
        n1 == n2,
{
    if n1 < n2 {
        assert(!walk_of_len(grid, s, t, n1));
    } else if n2 < n1 {
        assert(!walk_of_len(grid, s, t, n2));
    }
}

/// There is only one first shortest walk between two tiles.
pub proof fn lemma_least_shortest_walk_unique(
    grid: Seq<Vec<TileType>>,
    s: Pos,
    t: Pos,
    w1: Seq<Pos>,
    w2: Seq<Pos>,
)
    requires
        least_shortest_walk(grid, s, t, w1),
        least_shortest_walk(grid, s, t, w2),
    ensures
        w1 == w2,
{
    lemma_shortest_unique(grid, s, t, (w1.len() - 1) as nat, (w2.len() - 1) as nat);
    assert(w2 == w1 || walk_before(w1, w2));
    assert(w1 == w2 || walk_before(w2, w1));
    if w1 != w2 {
        lemma_before_asym(w1, w2);
    }
}

// ---------------------------------------------------------------------------
// Breadth-first search trees.

/// `p` has been reached by the search: it has a parent pointer.
pub open spec fn found(parents: Seq<Option<Pos>>, p: Pos) -> bool {
    in_board(p) && parents[tile_index(p)] is Some
}

/// The tile that the search reached `p` from.
pub open spec fn parent_of(parents: Seq<Option<Pos>>, p: Pos) -> Pos {
    parents[tile_index(p)]->0
}

/// How many slots hold a parent pointer.
pub open spec fn count_found(s: Seq<Option<Pos>>) -> nat
    decreases s.len(),
{
    if s.len() == 0 {
        0
    } else {
        count_found(s.drop_last()) + if s.last() is Some {
            1nat
        } else {
            0nat
        }
    }
}

/// A finished breadth-first search from `src`: parent pointers that lead
/// back to `src`, each one step up a layer, and no step out of the reached
/// tiles that would skip a layer.
pub open spec fn bfs_tree(
    grid: Seq<Vec<TileType>>,
    src: Pos,
    parents: Seq<Option<Pos>>,
    depth: Seq<int>,
) -> bool {
    &&& parents.len() == BOARD_TILES
    &&& depth.len() == BOARD_TILES
    &&& in_board(src)
    &&& parents[tile_index(src)] == Some(src)
    &&& depth[tile_index(src)] == 0
    &&& forall|p: Pos| #[trigger] found(parents, p) ==> depth[tile_index(p)] >= 0
    &&& forall|p: Pos|
        #[trigger] found(parents, p) && p != src ==> {
            &&& found(parents, parent_of(parents, p))
            &&& can_step(grid, parent_of(parents, p), p)
            &&& depth[tile_index(p)] == depth[tile_index(parent_of(parents, p))] + 1
        }
    &&& forall|p: Pos, q: Pos|
        #[trigger] found(parents, p) && #[trigger] can_step(grid, p, q) ==> {
            &&& found(parents, q)
            &&& depth[tile_index(q)] <= depth[tile_index(p)] + 1
        }
}

/// Parent pointers that lead back to `src`, each one step up a layer (the
/// part of a search tree that holds while the search runs).
pub open spec fn parent_ok(
    grid: Seq<Vec<TileType>>,
    src: Pos,
    parents: Seq<Option<Pos>>,
    depth: Seq<int>,
) -> bool {
    &&& parents.len() == BOARD_TILES
    &&& depth.len() == BOARD_TILES
    &&& in_board(src)
    &&& parents[tile_index(src)] == Some(src)
    &&& depth[tile_index(src)] == 0
    &&& forall|p: Pos| #[trigger] found(parents, p) ==> depth[tile_index(p)] >= 0
    &&& forall|p: Pos|
        #[trigger] found(parents, p) && p != src ==> {
            &&& found(parents, parent_of(parents, p))
            &&& can_step(grid, parent_of(parents, p), p)
            &&& depth[tile_index(p)] == depth[tile_index(parent_of(parents, p))] + 1
        }
}

/// The walk down the search tree from the source to `v`.
pub open spec fn tree_walk(parents: Seq<Option<Pos>>, depth: Seq<int>, v: Pos) -> Seq<Pos> {
    let d = depth[tile_index(v)];
    Seq::new((d + 1) as nat, |i: int| ancestor(parents, v, (d - i) as nat))
}

/// Whenever a reached tile can also be stepped onto from another tile of
/// the layer above, its parent's tree walk comes first.
pub open spec fn bfs_lex(
    grid: Seq<Vec<TileType>>,
    src: Pos,
    parents: Seq<Option<Pos>>,
    depth: Seq<int>,
) -> bool {
    forall|v: Pos, u: Pos|
        #[trigger] found(parents, v) && v != src && found(parents, u) && #[trigger] can_step(grid, u, v)
            && depth[tile_index(u)] + 1 == depth[tile_index(v)] ==> parent_of(parents, v) == u
            || walk_before(
            tree_walk(parents, depth, parent_of(parents, v)),
            tree_walk(parents, depth, u),
        )
}

/// Every found tile that is not the source has its parent processed before
/// the one at `head`, or is a child of `u` (the one at `head`) through a
/// direction ranked below `k`.
pub open spec fn parents_processed(
    src: Pos,
    parents: Seq<Option<Pos>>,
    order: Seq<int>,
    head: int,
    u: Pos,
    k: int,
) -> bool {
    forall|p: Pos|
        #[trigger] found(parents, p) && p != src ==> order[tile_index(parent_of(parents, p))] < head
            || (parent_of(parents, p) == u && step_rank(u, p) < k)
}

/// Within a layer, the queue holds tiles in the order of their tree walks.
pub open spec fn queue_lex(queue: Seq<Pos>, parents: Seq<Option<Pos>>, depth: Seq<int>) -> bool {
    forall|i: int, j: int|
        0 <= i < j < queue.len() && depth[tile_index(#[trigger] queue[i])] == depth[tile_index(
            #[trigger] queue[j],
        )] ==> walk_before(tree_walk(parents, depth, queue[i]), tree_walk(parents, depth, queue[j]))
}

/// A tile was reached from the first processed tile that steps onto it.
pub open spec fn first_discovery(
    grid: Seq<Vec<TileType>>,
    src: Pos,
    parents: Seq<Option<Pos>>,
    order: Seq<int>,
    queue: Seq<Pos>,
    head: int,
) -> bool {
    forall|p: Pos, j: int|
        #[trigger] found(parents, p) && p != src && 0 <= j < head && #[trigger] can_step(
            grid,
            queue[j],
            p,
        ) ==> order[tile_index(parent_of(parents, p))] <= j
}

/// Following parent pointers `k` times from `t`.
pub open spec fn ancestor(parents: Seq<Option<Pos>>, t: Pos, k: nat) -> Pos
    decreases k,
{
    if k == 0 {
        t
    } else {
        parent_of(parents, ancestor(parents, t, (k - 1) as nat))
    }
}

proof fn lemma_ancestor_shift(parents: Seq<Option<Pos>>, t: Pos, k: nat)
    ensures
        ancestor(parents, t, k + 1) == ancestor(parents, parent_of(parents, t), k),
    decreases k,
{
    if k == 0 {
        assert(ancestor(parents, t, 0) == t);
        assert(ancestor(parents, t, 1) == parent_of(parents, ancestor(parents, t, 0)));
    } else {
        let k1 = (k - 1) as nat;
        lemma_ancestor_shift(parents, t, k1);
        assert(k1 + 1 == k);
        assert(ancestor(parents, t, k + 1) == parent_of(parents, ancestor(parents, t, k)));
        assert(ancestor(parents, parent_of(parents, t), k) == parent_of(
            parents,
            ancestor(parents, parent_of(parents, t), (k - 1) as nat),
        ));
    }
}

/// The tree walk to a tile is the tree walk to its parent, one step longer.
proof fn lemma_tree_walk_step(parents: Seq<Option<Pos>>, depth: Seq<int>, v: Pos)
    requires
        depth[tile_index(v)] >= 1,
        depth[tile_index(parent_of(parents, v))] == depth[tile_index(v)] - 1,
    ensures
        tree_walk(parents, depth, v) == tree_walk(parents, depth, parent_of(parents, v)).push(v),
{
    let d = depth[tile_index(v)];
    let p = parent_of(parents, v);
    let a = tree_walk(parents, depth, v);
    let b = tree_walk(parents, depth, p).push(v);
    assert forall|i: int| 0 <= i < a.len() implies a[i] == b[i] by {
        if i < d {
            lemma_ancestor_shift(parents, v, (d - 1 - i) as nat);
        }
    }
    assert(a =~= b);
}

/// Under parent pointers, a found tile's ancestors are found, each one layer
/// up.
proof fn lemma_ancestors_found(
    grid: Seq<Vec<TileType>>,
    src: Pos,
    parents: Seq<Option<Pos>>,
    depth: Seq<int>,
    t: Pos,
    k: nat,
)
    requires
        parent_ok(grid, src, parents, depth),
        found(parents, t),
        k <= depth[tile_index(t)],
    ensures
        found(parents, ancestor(parents, t, k)),
        depth[tile_index(ancestor(parents, t, k))] == depth[tile_index(t)] - k,
    decreases k,
{
    if k > 0 {
        lemma_ancestors_found(grid, src, parents, depth, t, (k - 1) as nat);
        let a = ancestor(parents, t, (k - 1) as nat);
        assert(a != src);
    }
}

/// Setting the parent of a tile not yet found leaves the tree walks of the
/// found tiles as they were.
proof fn lemma_tree_walk_frame(
    grid: Seq<Vec<TileType>>,
    src: Pos,
    parents: Seq<Option<Pos>>,
    depth: Seq<int>,
    v: Pos,
    u: Pos,
    dv: int,
    x: Pos,
)
    requires
        parent_ok(grid, src, parents, depth),
        in_board(v),
        !found(parents, v),
        found(parents, x),
    ensures
        tree_walk(
            parents.update(tile_index(v), Some(u)),
            depth.update(tile_index(v), dv),
            x,
        ) == tree_walk(parents, depth, x),
{
    let p2 = parents.update(tile_index(v), Some(u));
    let d2 = depth.update(tile_index(v), dv);
    assert(x != v);
    lemma_tile_index_injective(x, v);
    let d = depth[tile_index(x)];
    assert forall|j: nat| j <= d implies ancestor(p2, x, j) == ancestor(parents, x, j) by {
        lemma_ancestor_frame(grid, src, parents, depth, v, u, x, j);
    }
    let a = tree_walk(p2, d2, x);
    let b = tree_walk(parents, depth, x);
    assert forall|i: int| 0 <= i < a.len() implies a[i] == b[i] by {
        assert(ancestor(p2, x, (d - i) as nat) == ancestor(parents, x, (d - i) as nat));
    }
    assert(a =~= b);
}

proof fn lemma_ancestor_frame(
    grid: Seq<Vec<TileType>>,
    src: Pos,
    parents: Seq<Option<Pos>>,
    depth: Seq<int>,
    v: Pos,
    u: Pos,
    x: Pos,
    j: nat,
)
    requires
        parent_ok(grid, src, parents, depth),
        in_board(v),
        !found(parents, v),
        found(parents, x),
        j <= depth[tile_index(x)],
    ensures
        ancestor(parents.update(tile_index(v), Some(u)), x, j) == ancestor(parents, x, j),
    decreases j,
{
    if j > 0 {
        lemma_ancestor_frame(grid, src, parents, depth, v, u, x, (j - 1) as nat);
        let a = ancestor(parents, x, (j - 1) as nat);
        lemma_ancestors_found(grid, src, parents, depth, x, (j - 1) as nat);
        assert(a != v);
        lemma_tile_index_injective(a, v);
    }
}

/// The rank of the step to the neighbour in direction `k` is `k`.
proof fn lemma_neighbor_rank(u: Pos, k: int, v: Pos)
    requires
        0 <= k < 4,
        neighbor_spec(u, k) == Some(v),
    ensures
        step_rank(u, v) == k,
{
}

/// Finding `v` from `u` (in direction `k`, at the end of the queue) keeps
/// the order facts of the search.
proof fn lemma_discover_lex(
    grid: Seq<Vec<TileType>>,
    src: Pos,
    parents: Seq<Option<Pos>>,
    depth: Seq<int>,
    order: Seq<int>,
    queue: Seq<Pos>,
    head: int,
    u: Pos,
    k: int,
    v: Pos,
)
    requires
        parent_ok(grid, src, parents, depth),
        order.len() == BOARD_TILES,
        forall|j: int|
            0 <= j < queue.len() ==> #[trigger] found(parents, queue[j]) && order[tile_index(
                queue[j],
            )] == j,
        forall|p: Pos|
            #[trigger] found(parents, p) ==> 0 <= order[tile_index(p)] < queue.len() && queue[order[tile_index(
                p,
            )]] == p,
        0 <= head < queue.len(),
        queue[head] == u,
        0 <= k < 4,
        neighbor_spec(u, k) == Some(v),
        is_floor(grid, v),
        !found(parents, v),
        parents_processed(src, parents, order, head, u, k),
        queue_lex(queue, parents, depth),
        first_discovery(grid, src, parents, order, queue, head),
        forall|j: int, q: Pos|
            0 <= j < head && #[trigger] can_step(grid, queue[j], q) ==> found(
                parents,
                #[trigger] queue[j],
            ) && found(parents, q),
    ensures
        ({
            let p2 = parents.update(tile_index(v), Some(u));
            let d2 = depth.update(tile_index(v), depth[tile_index(u)] + 1);
            let o2 = order.update(tile_index(v), queue.len() as int);
            let q2 = queue.push(v);
            &&& parents_processed(src, p2, o2, head, u, k + 1)
            &&& queue_lex(q2, p2, d2)
            &&& first_discovery(grid, src, p2, o2, q2, head)
        }),
{
    let vi = tile_index(v);
    let p2 = parents.update(vi, Some(u));
    let d2 = depth.update(vi, depth[tile_index(u)] + 1);
    let o2 = order.update(vi, queue.len() as int);
    let q2 = queue.push(v);
    lemma_neighbor_rank(u, k, v);
    assert(found(parents, queue[head]));
    assert forall|p: Pos| in_board(p) && p != v implies tile_index(p) != vi by {
        lemma_tile_index_injective(p, v);
    }
    assert forall|p: Pos| #[trigger] found(p2, p) implies (found(parents, p) || p == v) by {}
    // parents_processed
    assert forall|p: Pos| #[trigger] found(p2, p) && p != src implies o2[tile_index(parent_of(p2, p))]
        < head || (parent_of(p2, p) == u && step_rank(u, p) < k + 1) by {
        if p != v {
            assert(found(parents, p));
            assert(found(parents, parent_of(parents, p)));
        }
    }
    // queue_lex
    assert forall|i: int, j: int|
        0 <= i < j < q2.len() && d2[tile_index(#[trigger] q2[i])] == d2[tile_index(#[trigger] q2[j])]
            implies walk_before(tree_walk(p2, d2, q2[i]), tree_walk(p2, d2, q2[j])) by {
        assert(found(parents, q2[i]));
        assert(q2[i] == queue[i]);
        lemma_tree_walk_frame(grid, src, parents, depth, v, u, depth[tile_index(u)] + 1, q2[i]);
        if j < queue.len() {
            assert(found(parents, queue[j]));
            lemma_tree_walk_frame(grid, src, parents, depth, v, u, depth[tile_index(u)] + 1, q2[j]);
            assert(queue[i] != v && queue[j] != v);
        } else {
            let x = queue[i];
            assert(x != v);
            assert(depth[tile_index(x)] == depth[tile_index(u)] + 1);
            assert(x != src);
            let px = parent_of(parents, x);
            lemma_tree_walk_step(parents, depth, x);
            // the tree walk to v goes through u
            assert(parent_of(p2, v) == u);
            lemma_tree_walk_frame(grid, src, parents, depth, v, u, depth[tile_index(u)] + 1, u);
            lemma_tree_walk_step(p2, d2, v);
            if order[tile_index(px)] < head {
                let a = order[tile_index(px)];
                assert(found(parents, px));
                assert(queue[a] == px);
                assert(queue[head] == u);
                assert(depth[tile_index(queue[a])] == depth[tile_index(queue[head])]);
                assert(walk_before(tree_walk(parents, depth, queue[a]), tree_walk(parents, depth, queue[head])));
                lemma_before_push(tree_walk(parents, depth, px), tree_walk(parents, depth, u), x, v);
            } else {
                assert(px == u && step_rank(u, x) < k);
                lemma_before_last_step(tree_walk(parents, depth, u), x, v);
            }
        }
    }
    // first_discovery
    assert forall|p: Pos, j: int|
        #[trigger] found(p2, p) && p != src && 0 <= j < head && #[trigger] can_step(grid, q2[j], p)
            implies o2[tile_index(parent_of(p2, p))] <= j by {
        assert(q2[j] == queue[j]);
        if p == v {
            assert(can_step(grid, queue[j], v));
            assert(found(parents, v));
        } else {
            assert(found(parents, p));
            assert(found(parents, parent_of(parents, p)));
        }
    }
}

proof fn lemma_count_found_bound(s: Seq<Option<Pos>>)
    ensures
        count_found(s) <= s.len(),
    decreases s.len(),
{
    if s.len() > 0 {
        lemma_count_found_bound(s.drop_last());
    }
}

proof fn lemma_count_found_update(s: Seq<Option<Pos>>, i: int, v: Pos)
    requires
        0 <= i < s.len(),
        s[i] is None,
    ensures
        count_found(s.update(i, Some(v))) == count_found(s) + 1,
    decreases s.len(),
{
    let u = s.update(i, Some(v));
    if i == s.len() - 1 {
        assert(u.drop_last() =~= s.drop_last());
    } else {
        assert(u.drop_last() =~= s.drop_last().update(i, Some(v)));
        lemma_count_found_update(s.drop_last(), i, v);
    }
}

/// The tile one step from `p` in direction `k`: right, left, down, up.
pub open spec fn toward(p: Pos, k: int) -> (int, int) {
    if k == 0 {
        (p.0 + 1, p.1 as int)
    } else if k == 1 {
        (p.0 - 1, p.1 as int)
    } else if k == 2 {
        (p.0 as int, p.1 + 1)
    } else {
        (p.0 as int, p.1 - 1)
    }
}

/// The on-board neighbour of `p` in direction `k`, if there is one.
pub open spec fn neighbor_spec(p: Pos, k: int) -> Option<Pos> {
    let c = toward(p, k);
    if 0 <= c.0 < GRID_WIDTH && 0 <= c.1 < GRID_HEIGHT {
        Some((c.0 as u8, c.1 as u8))
    } else {
        None
    }
}

/// The on-board neighbour of `p` in direction `k`, if there is one.
fn neighbor(p: Pos, k: usize) -> (r: Option<Pos>)
    requires
        in_board(p),
        k < 4,
    ensures
        r == neighbor_spec(p, k as int),
{
    let (x, y) = p;
    if k == 0 {
        if x + 1 < GRID_WIDTH {
            Some((x + 1, y))
        } else {
            None
        }
    } else if k == 1 {
        if x >= 1 {
            Some((x - 1, y))
        } else {
            None
        }
    } else if k == 2 {
        if y + 1 < GRID_HEIGHT {
            Some((x, y + 1))
        } else {
            None
        }
    } else {
        if y >= 1 {
            Some((x, y - 1))
        } else {
            None
        }
    }
}

/// Every on-board tile adjacent to `p` is its neighbour in some direction.
proof fn lemma_adjacent_is_neighbor(p: Pos, q: Pos)
    requires
        in_board(q),
        adjacent(p, q),
    ensures
        exists|k: int| 0 <= k < 4 && #[trigger] neighbor_spec(p, k) == Some(q),
{
    if q.0 == p.0 + 1 && q.1 == p.1 {
        assert(neighbor_spec(p, 0) == Some(q));
    } else if q.0 + 1 == p.0 && q.1 == p.1 {
        assert(neighbor_spec(p, 1) == Some(q));
    } else if q.1 == p.1 + 1 {
        assert(neighbor_spec(p, 2) == Some(q));
    } else {
        assert(neighbor_spec(p, 3) == Some(q));
    }
}

/// The neighbour of `u` in direction `kk`, if it is floor, has been reached,
/// at most one layer below `du`.
pub open spec fn settled(
    grid: Seq<Vec<TileType>>,
    parents: Seq<Option<Pos>>,
    depth: Seq<int>,
    u: Pos,
    kk: int,
    du: int,
) -> bool {
    match neighbor_spec(u, kk) {
        Some(q) => is_floor(grid, q) ==> found(parents, q) && depth[tile_index(q)] <= du + 1,
        None => true,
    }
}

/// The tile one step from `p` in direction `k` (right, left, down, up),
/// each coordinate wrapping round the `u8` range.
pub open spec fn wrapped_step(p: Pos, k: int) -> Pos {
    if k == 0 {
        (if p.0 == 255 { 0u8 } else { (p.0 + 1) as u8 }, p.1)
    } else if k == 1 {
        (if p.0 == 0 { 255u8 } else { (p.0 - 1) as u8 }, p.1)
    } else if k == 2 {
        (p.0, if p.1 == 255 { 0u8 } else { (p.1 + 1) as u8 })
    } else {
        (p.0, if p.1 == 0 { 255u8 } else { (p.1 - 1) as u8 })
    }
}

/// The first on-board tile one wrapped step from `s`, if any.
pub open spec fn entry_tile(s: Pos) -> Option<Pos> {
    if in_board(wrapped_step(s, 0)) {
        Some(wrapped_step(s, 0))
    } else if in_board(wrapped_step(s, 1)) {
        Some(wrapped_step(s, 1))
    } else if in_board(wrapped_step(s, 2)) {
        Some(wrapped_step(s, 2))
    } else if in_board(wrapped_step(s, 3)) {
        Some(wrapped_step(s, 3))
    } else {
        None
    }
}

/// A tile off the board is one wrapped step from at most one tile on it, so
/// its entry tile is its only way onto the board.
pub proof fn lemma_one_entry(s: Pos, k1: int, k2: int)
    requires
        !in_board(s),
        0 <= k1 < 4,
        0 <= k2 < 4,
        in_board(wrapped_step(s, k1)),
        in_board(wrapped_step(s, k2)),
    ensures
        k1 == k2,
        entry_tile(s) == Some(wrapped_step(s, k1)),
{
}

/// Breadth-first search across floor tiles from `source`, returning a
/// came-from table (each reached tile points at the tile it was reached
/// from), together with the layer of each reached tile. Steps wrap round
/// the `u8` range, so a source off the board enters it through its entry
/// tile, if that is floor; the search then runs as from the entry tile,
/// whose parent is the source.
fn bfs(grid: &[Vec<TileType>], source: Pos) -> (res: (Vec<Option<Pos>>, Ghost<Seq<int>>))
    requires
        covers_board(grid@),
    ensures
        res.0@.len() == BOARD_TILES,
        in_board(source) ==> bfs_tree(grid@, source, res.0@, res.1@) && bfs_lex(
            grid@,
            source,
            res.0@,
            res.1@,
        ),
        !in_board(source) ==> match entry_tile(source) {
            Some(n) if is_floor(grid@, n) => {
                &&& res.0@[tile_index(n)] == Some(source)
                &&& bfs_tree(grid@, n, res.0@.update(tile_index(n), Some(n)), res.1@)
                &&& bfs_lex(grid@, n, res.0@.update(tile_index(n), Some(n)), res.1@)
            },
            _ => forall|p: Pos| !#[trigger] found(res.0@, p),
        },
{
    if source.0 < GRID_WIDTH && source.1 < GRID_HEIGHT {
        return bfs_from(grid, source);
    }
    let (x, y) = source;
    let right: Pos = (if x == 255 { 0 } else { x + 1 }, y);
    let left: Pos = (if x == 0 { 255 } else { x - 1 }, y);
    let down: Pos = (x, if y == 255 { 0 } else { y + 1 });
    let up: Pos = (x, if y == 0 { 255 } else { y - 1 });
    let entry = if right.0 < GRID_WIDTH && right.1 < GRID_HEIGHT {
        Some(right)
    } else if left.0 < GRID_WIDTH && left.1 < GRID_HEIGHT {
        Some(left)
    } else if down.0 < GRID_WIDTH && down.1 < GRID_HEIGHT {
        Some(down)
    } else if up.0 < GRID_WIDTH && up.1 < GRID_HEIGHT {
        Some(up)
    } else {
        None
    };
    assert(entry == entry_tile(source));
    if let Some(n) = entry {
        let floor = match grid[n.1 as usize][n.0 as usize] {
            TileType::Floor => true,
            _ => false,
        };
        if floor {
            let (mut parents, Ghost(depth)) = bfs_from(grid, n);
            let ghost before = parents@;
            let ni = index_of(n);
            parents.set(ni, Some(source));
            proof {
                assert(parents@.update(tile_index(n), Some(n)) =~= before);
            }
            return (parents, Ghost(depth));
        }
    }
    let mut parents: Vec<Option<Pos>> = Vec::new();
    let mut i: usize = 0;
    while i < BOARD_TILES
        invariant
            i <= BOARD_TILES,
            parents@.len() == i,
            forall|j: int| 0 <= j < i ==> parents@[j] is None,
        decreases BOARD_TILES - i,
    {
        parents.push(None);
        i += 1;
    }
    proof {
        assert forall|p: Pos| !#[trigger] found(parents@, p) by {
            if in_board(p) {
                lemma_tile_index(p);
            }
        }
    }
    (parents, Ghost(Seq::empty()))
}

/// Breadth-first search from a source on the board.
fn bfs_from(grid: &[Vec<TileType>], source: Pos) -> (res: (Vec<Option<Pos>>, Ghost<Seq<int>>))
    requires
        covers_board(grid@),
        in_board(source),
    ensures
        bfs_tree(grid@, source, res.0@, res.1@),
        bfs_lex(grid@, source, res.0@, res.1@),
{
    let mut parents: Vec<Option<Pos>> = Vec::new();
    let mut i: usize = 0;
    while i < BOARD_TILES
        invariant
            i <= BOARD_TILES,
            parents@.len() == i,
            forall|j: int| 0 <= j < i ==> parents@[j] is None,
        decreases BOARD_TILES - i,
    {
        parents.push(None);
        i += 1;
    }
    let ghost mut depth: Seq<int> = Seq::new(BOARD_TILES as nat, |j: int| 0int);
    // ghost: the queue position of each reached tile
    let ghost mut order: Seq<int> = Seq::new(BOARD_TILES as nat, |j: int| 0int);
    proof {
        lemma_tile_index(source);
        assert forall|p: Pos| in_board(p) implies !found(parents@, p) by {
            lemma_tile_index(p);
        }
        assert(count_found(parents@) == 0) by {
            let s = parents@;
            assert forall|j: int| 0 <= j <= s.len() implies count_found(#[trigger] s.subrange(0, j))
                == 0 by {
                lemma_count_prefix_none(s, j);
            }
            assert(s.subrange(0, s.len() as int) =~= s);
        }
    }
    let src_index = index_of(source);
    proof {
        lemma_count_found_update(parents@, src_index as int, source);
    }
    parents[src_index] = Some(source);
    let mut queue: Vec<Pos> = Vec::new();
    queue.push(source);
    let mut head: usize = 0;
    proof {
        assert forall|p: Pos| found(parents@, p) implies p == source by {
            if p != source {
                lemma_tile_index_injective(p, source);
            }
        }
    }
    while head < queue.len()
        invariant
            covers_board(grid@),
            in_board(source),
            parents@.len() == BOARD_TILES,
            depth.len() == BOARD_TILES,
            order.len() == BOARD_TILES,
            head <= queue@.len(),
            forall|j: int| 0 <= j < queue@.len() ==> order[tile_index(#[trigger] queue@[j])] == j,
            parents_processed(source, parents@, order, head as int, source, 0),
            queue_lex(queue@, parents@, depth),
            first_discovery(grid@, source, parents@, order, queue@, head as int),
            queue@.len() == count_found(parents@),
            queue@[0] == source,
            parents@[tile_index(source)] == Some(source),
            depth[tile_index(source)] == 0,
            forall|j: int| 0 <= j < queue@.len() ==> #[trigger] found(parents@, queue@[j]),
            forall|p: Pos|
                #[trigger] found(parents@, p) ==> {
                    &&& 0 <= order[tile_index(p)] < queue@.len()
                    &&& queue@[order[tile_index(p)]] == p
                    &&& depth[tile_index(p)] >= 0
                },
            forall|i: int, j: int|
                0 <= i <= j < queue@.len() ==> depth[tile_index(#[trigger] queue@[i])]
                    <= depth[tile_index(#[trigger] queue@[j])],
            head < queue@.len() ==> forall|j: int|
                0 <= j < queue@.len() ==> depth[tile_index(#[trigger] queue@[j])] <= depth[tile_index(
                    queue@[head as int],
                )] + 1,
            forall|p: Pos|
                #[trigger] found(parents@, p) && p != source ==> {
                    &&& found(parents@, parent_of(parents@, p))
                    &&& can_step(grid@, parent_of(parents@, p), p)
                    &&& depth[tile_index(p)] == depth[tile_index(parent_of(parents@, p))] + 1
                },
            forall|j: int, q: Pos|
                0 <= j < head && #[trigger] can_step(grid@, queue@[j], q) ==> {
                    &&& found(parents@, q)
                    &&& depth[tile_index(q)] <= depth[tile_index(#[trigger] queue@[j])] + 1
                },
        decreases BOARD_TILES - head,
    {
        proof {
            lemma_count_found_bound(parents@);
        }
        let u = queue[head];
        let ghost du = depth[tile_index(u)];
        proof {
            assert(found(parents@, queue@[head as int]));
            assert forall|p: Pos| #[trigger] found(parents@, p) && p != source implies order[tile_index(
                parent_of(parents@, p),
            )] < head || (parent_of(parents@, p) == u && step_rank(u, p) < 0) by {}
        }
        let mut k: usize = 0;
        while k < 4
            invariant
                covers_board(grid@),
                in_board(source),
                in_board(u),
                parents@.len() == BOARD_TILES,
                depth.len() == BOARD_TILES,
                order.len() == BOARD_TILES,
                k <= 4,
                head < queue@.len(),
                queue@[head as int] == u,
                du == depth[tile_index(u)],
                forall|j: int| 0 <= j < queue@.len() ==> order[tile_index(#[trigger] queue@[j])] == j,
                parents_processed(source, parents@, order, head as int, u, k as int),
                queue_lex(queue@, parents@, depth),
                first_discovery(grid@, source, parents@, order, queue@, head as int),
                queue@.len() == count_found(parents@),
                queue@[0] == source,
                parents@[tile_index(source)] == Some(source),
                depth[tile_index(source)] == 0,
                forall|j: int| 0 <= j < queue@.len() ==> #[trigger] found(parents@, queue@[j]),
                forall|p: Pos|
                    #[trigger] found(parents@, p) ==> {
                        &&& 0 <= order[tile_index(p)] < queue@.len()
                        &&& queue@[order[tile_index(p)]] == p
                        &&& depth[tile_index(p)] >= 0
                    },
                forall|i: int, j: int|
                    0 <= i <= j < queue@.len() ==> depth[tile_index(#[trigger] queue@[i])]
                        <= depth[tile_index(#[trigger] queue@[j])],
                forall|j: int|
                    0 <= j < queue@.len() ==> depth[tile_index(#[trigger] queue@[j])] <= du + 1,
                forall|p: Pos|
                    #[trigger] found(parents@, p) && p != source ==> {
                        &&& found(parents@, parent_of(parents@, p))
                        &&& can_step(grid@, parent_of(parents@, p), p)
                        &&& depth[tile_index(p)] == depth[tile_index(parent_of(parents@, p))] + 1
                    },
                forall|j: int, q: Pos|
                    0 <= j < head && #[trigger] can_step(grid@, queue@[j], q) ==> {
                        &&& found(parents@, q)
                        &&& depth[tile_index(q)] <= depth[tile_index(#[trigger] queue@[j])] + 1
                    },
                forall|kk: int| 0 <= kk < k ==> #[trigger] settled(grid@, parents@, depth, u, kk, du),
            decreases 4 - k,
        {
            if let Some(v) = neighbor(u, k) {
                let vi = index_of(v);
                let is_floor_tile = match grid[v.1 as usize][v.0 as usize] {
                    TileType::Floor => true,
                    _ => false,
                };
                if is_floor_tile && parents[vi].is_none() {
                    let ghost old_parents = parents@;
                    let ghost old_queue = queue@;
                    let ghost old_depth = depth;
                    let ghost old_order = order;
                    proof {
                        lemma_count_found_update(parents@, vi as int, u);
                        lemma_count_found_bound(parents@.update(vi as int, Some(u)));
                        assert(parent_ok(grid@, source, parents@, depth));
                        assert(is_floor(grid@, v));
                        assert forall|j: int, q: Pos|
                            0 <= j < head && #[trigger] can_step(grid@, queue@[j], q) implies found(
                                parents@,
                                #[trigger] queue@[j],
                            ) && found(parents@, q) by {}
                        lemma_discover_lex(
                            grid@,
                            source,
                            parents@,
                            depth,
                            order,
                            queue@,
                            head as int,
                            u,
                            k as int,
                            v,
                        );
                    }
                    parents[vi] = Some(u);
                    queue.push(v);
                    proof {
                        depth = depth.update(vi as int, du + 1);
                        order = order.update(vi as int, (queue@.len() - 1) as int);
                        assert(adjacent(u, v));
                        assert forall|p: Pos| in_board(p) && p != v implies tile_index(p)
                            != tile_index(v) by {
                            lemma_tile_index_injective(p, v);
                        }
                        assert forall|j: int| 0 <= j < queue@.len() implies order[tile_index(
                            #[trigger] queue@[j],
                        )] == j by {
                            if j < old_queue.len() {
                                assert(found(old_parents, old_queue[j]));
                                assert(old_queue[j] != v);
                            }
                        }
                        assert forall|p: Pos| #[trigger]
                            found(parents@, p) implies (found(old_parents, p) || p == v) by {}
                        assert(v != source);
                        assert forall|j: int| 0 <= j < queue@.len() implies #[trigger] found(
                            parents@,
                            queue@[j],
                        ) by {
                            if j < old_queue.len() {
                                assert(found(old_parents, old_queue[j]));
                            }
                        }
                        assert forall|p: Pos| #[trigger] found(parents@, p) implies {
                            &&& 0 <= order[tile_index(p)] < queue@.len()
                            &&& queue@[order[tile_index(p)]] == p
                            &&& depth[tile_index(p)] >= 0
                        } by {
                            if p != v {
                                assert(found(old_parents, p));
                            }
                        }
                        assert forall|i: int, j: int|
                            0 <= i <= j < queue@.len() implies depth[tile_index(
                                #[trigger] queue@[i],
                            )] <= depth[tile_index(#[trigger] queue@[j])] by {
                            if j < old_queue.len() {
                                assert(found(old_parents, old_queue[i]));
                                assert(found(old_parents, old_queue[j]));
                                assert(old_queue[i] != v);
                                assert(old_queue[j] != v);
                            } else if i < old_queue.len() {
                                assert(found(old_parents, old_queue[i]));
                                assert(old_queue[i] != v);
                            }
                        }
                        assert forall|j: int| 0 <= j < queue@.len() implies depth[tile_index(
                            #[trigger] queue@[j],
                        )] <= du + 1 by {
                            if j < old_queue.len() {
                                assert(found(old_parents, old_queue[j]));
                                assert(old_queue[j] != v);
                            }
                        }
                        assert forall|p: Pos| #[trigger]
                            found(parents@, p) && p != source implies {
                            &&& found(parents@, parent_of(parents@, p))
                            &&& can_step(grid@, parent_of(parents@, p), p)
                            &&& depth[tile_index(p)] == depth[tile_index(parent_of(parents@, p))]
                                + 1
                        } by {
                            if p != v {
                                assert(found(old_parents, p));
                                let pp = parent_of(old_parents, p);
                                assert(found(old_parents, pp));
                                if pp == v {
                                    assert(false);
                                }
                            } else {
                                assert(found(old_parents, u));
                                assert(u != v);
                            }
                        }
                        assert forall|j: int, q: Pos|
                            0 <= j < head && #[trigger] can_step(grid@, queue@[j], q) implies {
                            &&& found(parents@, q)
                            &&& depth[tile_index(q)] <= depth[tile_index(#[trigger] queue@[j])]
                                + 1
                        } by {
                            assert(queue@[j] == old_queue[j]);
                            assert(can_step(grid@, old_queue[j], q));
                            assert(found(old_parents, old_queue[j]));
                            assert(old_queue[j] != v);
                            if q == v {
                                assert(found(old_parents, q));
                                assert(false);
                            }
                        }
                        assert forall|kk: int| 0 <= kk < k + 1 implies #[trigger] settled(
                            grid@,
                            parents@,
                            depth,
                            u,
                            kk,
                            du,
                        ) by {
                            if kk < k {
                                assert(settled(grid@, old_parents, old_depth, u, kk, du));
                                if let Some(q) = neighbor_spec(u, kk) {
                                    if is_floor(grid@, q) && q != v {
                                        assert(found(old_parents, q));
                                    }
                                }
                            }
                        }
                    }
                } else {
                    proof {
                        assert forall|p: Pos| #[trigger] found(parents@, p) && p != source implies order[tile_index(
                            parent_of(parents@, p),
                        )] < head || (parent_of(parents@, p) == u && step_rank(u, p) < k + 1) by {}
                        assert forall|kk: int| 0 <= kk < k + 1 implies #[trigger] settled(
                            grid@,
                            parents@,
                            depth,
                            u,
                            kk,
                            du,
                        ) by {
                            if kk == k && is_floor(grid@, v) {
                                assert(tile_at(grid@, v) == TileType::Floor);
                                assert(found(parents@, v));
                                let j = order[tile_index(v)];
                                assert(found(parents@, queue@[j]));
                            }
                        }
                    }
                }
            } else {
                proof {
                    assert forall|p: Pos| #[trigger] found(parents@, p) && p != source implies order[tile_index(
                        parent_of(parents@, p),
                    )] < head || (parent_of(parents@, p) == u && step_rank(u, p) < k + 1) by {}
                    assert forall|kk: int| 0 <= kk < k + 1 implies #[trigger] settled(
                        grid@,
                        parents@,
                        depth,
                        u,
                        kk,
                        du,
                    ) by {}
                }
            }
            k += 1;
        }
        proof {
            assert forall|j: int, q: Pos|
                0 <= j < head + 1 && #[trigger] can_step(grid@, queue@[j], q) implies {
                &&& found(parents@, q)
                &&& depth[tile_index(q)] <= depth[tile_index(#[trigger] queue@[j])] + 1
            } by {
                if j == head {
                    lemma_adjacent_is_neighbor(u, q);
                    let kk = choose|kk: int| 0 <= kk < 4 && #[trigger] neighbor_spec(u, kk) == Some(q);
                    assert(settled(grid@, parents@, depth, u, kk, du));
                }
            }
            assert(order[tile_index(u)] == head);
            assert forall|p: Pos| #[trigger] found(parents@, p) && p != source implies order[tile_index(
                parent_of(parents@, p),
            )] < head + 1 || (parent_of(parents@, p) == source && step_rank(source, p) < 0) by {}
            assert forall|p: Pos, j: int|
                #[trigger] found(parents@, p) && p != source && 0 <= j < head + 1 && #[trigger] can_step(
                    grid@,
                    queue@[j],
                    p,
                ) implies order[tile_index(parent_of(parents@, p))] <= j by {
                if j == head {
                    assert(order[tile_index(parent_of(parents@, p))] < head || parent_of(parents@, p)
                        == u);
                }
            }
            if head + 1 < queue@.len() {
                assert forall|j: int| 0 <= j < queue@.len() implies depth[tile_index(
                    #[trigger] queue@[j],
                )] <= depth[tile_index(queue@[head + 1])] + 1 by {
                    assert(depth[tile_index(queue@[head as int])] <= depth[tile_index(
                        queue@[head + 1],
                    )]);
                }
            }
        }
        head += 1;
    }
    proof {
        assert forall|p: Pos, q: Pos| #[trigger]
            found(parents@, p) && #[trigger] can_step(grid@, p, q) implies {
            &&& found(parents@, q)
            &&& depth[tile_index(q)] <= depth[tile_index(p)] + 1
        } by {
            let j = order[tile_index(p)];
            assert(can_step(grid@, queue@[j], q));
        }
        assert forall|v: Pos, u: Pos|
            #[trigger] found(parents@, v) && v != source && found(parents@, u) && #[trigger] can_step(
                grid@,
                u,
                v,
            ) && depth[tile_index(u)] + 1 == depth[tile_index(v)] implies parent_of(parents@, v)
            == u || walk_before(
            tree_walk(parents@, depth, parent_of(parents@, v)),
            tree_walk(parents@, depth, u),
        ) by {
            let j = order[tile_index(u)];
            assert(queue@[j] == u);
            assert(can_step(grid@, queue@[j], v));
            let pv = parent_of(parents@, v);
            assert(found(parents@, pv));
            let i = order[tile_index(pv)];
            assert(queue@[i] == pv);
            if pv != u {
                assert(i != j);
                assert(depth[tile_index(queue@[i])] == depth[tile_index(queue@[j])]);
            }
        }
    }
    (parents, Ghost(depth))
}

/// Every walk out of the source ends at a reached tile, no deeper than
/// the walk is long.
proof fn lemma_walk_is_found(
    grid: Seq<Vec<TileType>>,
    src: Pos,
    parents: Seq<Option<Pos>>,
    depth: Seq<int>,
    w: Seq<Pos>,
)
    requires
        bfs_tree(grid, src, parents, depth),
        is_walk(grid, w),
        w[0] == src,
    ensures
        found(parents, w.last()),
        depth[tile_index(w.last())] <= w.len() - 1,
    decreases w.len(),
{
    if w.len() > 1 {
        let w2 = w.drop_last();
        assert forall|i: int| 0 <= i < w2.len() - 1 implies #[trigger] can_step(
            grid,
            w2[i],
            w2[i + 1],
        ) by {
            assert(can_step(grid, w[i], w[i + 1]));
        }
        lemma_walk_is_found(grid, src, parents, depth, w2);
        let i = w.len() - 2;
        assert(can_step(grid, w[i], w[i + 1]));
        assert(found(parents, w2.last()));
    }
}

/// The only reached tile in the top layer is the source.
proof fn lemma_depth_zero(
    grid: Seq<Vec<TileType>>,
    src: Pos,
    parents: Seq<Option<Pos>>,
    depth: Seq<int>,
    p: Pos,
)
    requires
        bfs_tree(grid, src, parents, depth),
        found(parents, p),
        depth[tile_index(p)] <= 0,
    ensures
        p == src,
{
    if p != src {
        assert(found(parents, parent_of(parents, p)));
    }
}

/// Following parent pointers `k` times climbs `k` layers, and the tiles
/// passed on the way form a walk back down to `t`.
proof fn lemma_ancestor_walk(
    grid: Seq<Vec<TileType>>,
    src: Pos,
    parents: Seq<Option<Pos>>,
    depth: Seq<int>,
    t: Pos,
    k: nat,
) -> (w: Seq<Pos>)
    requires
        bfs_tree(grid, src, parents, depth),
        found(parents, t),
        k <= depth[tile_index(t)],
    ensures
        found(parents, ancestor(parents, t, k)),
        depth[tile_index(ancestor(parents, t, k))] == depth[tile_index(t)] - k,
        is_walk(grid, w),
        w.len() == k + 1,
        w[0] == ancestor(parents, t, k),
        w.last() == t,
    decreases k,
{
    if k == 0 {
        seq![t]
    } else {
        let w0 = lemma_ancestor_walk(grid, src, parents, depth, t, (k - 1) as nat);
        let a = ancestor(parents, t, (k - 1) as nat);
        assert(a != src);
        let p = parent_of(parents, a);
        assert(found(parents, a));
        let w = seq![p] + w0;
        assert forall|i: int| 0 <= i < w.len() - 1 implies #[trigger] can_step(
            grid,
            w[i],
            w[i + 1],
        ) by {
            if i > 0 {
                let i0 = i - 1;
                assert(w[i] == w0[i0] && w[i + 1] == w0[i0 + 1]);
                assert(can_step(grid, w0[i0], w0[i0 + 1]));
            }
        }
        w
    }
}

/// A reached tile is reached by a shortest walk, as many steps long as its
/// layer.
proof fn lemma_found_shortest(
    grid: Seq<Vec<TileType>>,
    src: Pos,
    parents: Seq<Option<Pos>>,
    depth: Seq<int>,
    t: Pos,
)
    requires
        bfs_tree(grid, src, parents, depth),
        found(parents, t),
    ensures
        shortest(grid, src, t, depth[tile_index(t)] as nat),
{
    let d = depth[tile_index(t)] as nat;
    let w = lemma_ancestor_walk(grid, src, parents, depth, t, d);
    lemma_depth_zero(grid, src, parents, depth, ancestor(parents, t, d));
    assert(walk_of_len(grid, src, t, d));
    assert forall|m: nat| m < d implies !#[trigger] walk_of_len(grid, src, t, m) by {
        if walk_of_len(grid, src, t, m) {
            let w2 = choose|w2: Seq<Pos>|
                #[trigger] is_walk(grid, w2) && w2.len() == m + 1 && w2[0] == src && w2.last() == t;
            lemma_walk_is_found(grid, src, parents, depth, w2);
        }
    }
}

/// The tree walk to a reached tile comes first among all walks of its
/// length from the source to it.
proof fn lemma_tree_walk_least(
    grid: Seq<Vec<TileType>>,
    src: Pos,
    parents: Seq<Option<Pos>>,
    depth: Seq<int>,
    v: Pos,
)
    requires
        bfs_tree(grid, src, parents, depth),
        bfs_lex(grid, src, parents, depth),
        found(parents, v),
    ensures
        is_walk(grid, tree_walk(parents, depth, v)),
        tree_walk(parents, depth, v).len() == depth[tile_index(v)] + 1,
        tree_walk(parents, depth, v)[0] == src,
        tree_walk(parents, depth, v).last() == v,
        forall|w: Seq<Pos>|
            #[trigger] is_walk(grid, w) && w.len() == depth[tile_index(v)] + 1 && w[0] == src
                && w.last() == v ==> w == tree_walk(parents, depth, v) || walk_before(
                tree_walk(parents, depth, v),
                w,
            ),
    decreases depth[tile_index(v)],
{
    let tv = tree_walk(parents, depth, v);
    let d = depth[tile_index(v)];
    if v == src {
        assert(tv.len() == 1);
        assert(tv[0] == ancestor(parents, v, 0));
        assert forall|w: Seq<Pos>|
            #[trigger] is_walk(grid, w) && w.len() == d + 1 && w[0] == src && w.last() == v implies w
            == tv || walk_before(tv, w) by {
            assert(w =~= tv);
        }
    } else {
        let p = parent_of(parents, v);
        assert(found(parents, p));
        lemma_tree_walk_least(grid, src, parents, depth, p);
        lemma_tree_walk_step(parents, depth, v);
        let tp = tree_walk(parents, depth, p);
        assert(tv == tp.push(v));
        assert forall|i: int| 0 <= i < tv.len() - 1 implies #[trigger] can_step(grid, tv[i], tv[i + 1]) by {
            if i < tp.len() - 1 {
                assert(tv[i] == tp[i] && tv[i + 1] == tp[i + 1]);
                assert(can_step(grid, tp[i], tp[i + 1]));
            } else {
                assert(tv[i] == p && tv[i + 1] == v);
            }
        }
        assert forall|w: Seq<Pos>|
            #[trigger] is_walk(grid, w) && w.len() == d + 1 && w[0] == src && w.last() == v implies w
            == tv || walk_before(tv, w) by {
            let w1 = w.drop_last();
            let u = w1.last();
            assert(is_walk(grid, w1)) by {
                assert forall|i: int| 0 <= i < w1.len() - 1 implies #[trigger] can_step(
                    grid,
                    w1[i],
                    w1[i + 1],
                ) by {
                    assert(can_step(grid, w[i], w[i + 1]));
                }
            }
            lemma_walk_is_found(grid, src, parents, depth, w1);
            let i = w.len() - 2;
            assert(can_step(grid, w[i], w[i + 1]));
            assert(can_step(grid, u, v));
            lemma_tree_walk_least(grid, src, parents, depth, u);
            let tu = tree_walk(parents, depth, u);
            assert(w =~= w1.push(v));
            if p == u {
                if w1 != tu {
                    lemma_before_push(tu, w1, v, v);
                }
            } else {
                assert(walk_before(tp, tu));
                if w1 != tu {
                    lemma_before_trans(tp, tu, w1);
                }
                lemma_before_push(tp, w1, v, v);
            }
        }
    }
}

/// The step the table records towards `t` is the second tile of the first
/// shortest walk from the source to `t`.
proof fn lemma_first_step_least(
    grid: Seq<Vec<TileType>>,
    src: Pos,
    parents: Seq<Option<Pos>>,
    depth: Seq<int>,
    t: Pos,
)
    requires
        bfs_tree(grid, src, parents, depth),
        bfs_lex(grid, src, parents, depth),
        found(parents, t),
        t != src,
    ensures
        least_shortest_walk(grid, src, t, tree_walk(parents, depth, t)),
        tree_walk(parents, depth, t)[1] == ancestor(parents, t, (depth[tile_index(t)] - 1) as nat),
{
    lemma_tree_walk_least(grid, src, parents, depth, t);
    lemma_found_shortest(grid, src, parents, depth, t);
    if depth[tile_index(t)] <= 0 {
        lemma_depth_zero(grid, src, parents, depth, t);
    }
}

/// A tile is reached by the search exactly when a walk leads to it.
proof fn lemma_found_iff_reachable(
    grid: Seq<Vec<TileType>>,
    src: Pos,
    parents: Seq<Option<Pos>>,
    depth: Seq<int>,
    t: Pos,
)
    requires
        bfs_tree(grid, src, parents, depth),
        in_board(t),
    ensures
        found(parents, t) <==> reachable(grid, src, t),
{
    if found(parents, t) {
        lemma_found_shortest(grid, src, parents, depth, t);
        assert(walk_of_len(grid, src, t, depth[tile_index(t)] as nat));
    }
    if reachable(grid, src, t) {
        let n = choose|n: nat| #[trigger] walk_of_len(grid, src, t, n);
        let w = choose|w: Seq<Pos>|
            #[trigger] is_walk(grid, w) && w.len() == n + 1 && w[0] == src && w.last() == t;
        lemma_walk_is_found(grid, src, parents, depth, w);
    }
}

/// The ancestor of `t` in the first layer below the source is the first
/// step of a shortest walk from the source to `t`.
proof fn lemma_first_step(
    grid: Seq<Vec<TileType>>,
    src: Pos,
    parents: Seq<Option<Pos>>,
    depth: Seq<int>,
    t: Pos,
)
    requires
        bfs_tree(grid, src, parents, depth),
        found(parents, t),
        t != src,
    ensures
        first_step_of_shortest(
            grid,
            src,
            t,
            ancestor(parents, t, (depth[tile_index(t)] - 1) as nat),
        ),
{
    let d = depth[tile_index(t)];
    if d <= 0 {
        lemma_depth_zero(grid, src, parents, depth, t);
    }
    let step = ancestor(parents, t, (d - 1) as nat);
    let w = lemma_ancestor_walk(grid, src, parents, depth, t, (d - 1) as nat);
    assert(step != src);
    let p = parent_of(parents, step);
    lemma_depth_zero(grid, src, parents, depth, p);
    assert(walk_of_len(grid, step, t, (d - 1) as nat));
    lemma_found_shortest(grid, src, parents, depth, t);
    assert(shortest(grid, src, t, d as nat));
}

/// Following parent pointers from `t`, the first `k + 1` tiles met are all
/// found, and the last of them has `src` as its parent.
pub open spec fn chain_reaches(parents: Seq<Option<Pos>>, src: Pos, t: Pos, k: nat) -> bool {
    &&& forall|j: nat| j <= k ==> #[trigger] found(parents, ancestor(parents, t, j))
    &&& parent_of(parents, ancestor(parents, t, k)) == src
}

/// In a search tree, the chain from a found tile other than the source
/// reaches the source after as many pointers as its layer, and not before.
proof fn lemma_tree_chain(
    grid: Seq<Vec<TileType>>,
    src: Pos,
    parents: Seq<Option<Pos>>,
    depth: Seq<int>,
    t: Pos,
)
    requires
        bfs_tree(grid, src, parents, depth),
        found(parents, t),
        t != src,
    ensures
        depth[tile_index(t)] >= 1,
        chain_reaches(parents, src, t, (depth[tile_index(t)] - 1) as nat),
        forall|i: nat|
            i < depth[tile_index(t)] - 1 ==> parent_of(parents, #[trigger] ancestor(parents, t, i))
                != src,
{
    let d = depth[tile_index(t)];
    if d <= 0 {
        lemma_depth_zero(grid, src, parents, depth, t);
    }
    assert forall|j: nat| j <= (d - 1) as nat implies #[trigger] found(
        parents,
        ancestor(parents, t, j),
    ) by {
        lemma_ancestor_walk(grid, src, parents, depth, t, j);
    }
    let step = ancestor(parents, t, (d - 1) as nat);
    lemma_ancestor_walk(grid, src, parents, depth, t, (d - 1) as nat);
    assert(step != src);
    let p = parent_of(parents, step);
    lemma_depth_zero(grid, src, parents, depth, p);
    assert forall|i: nat| i < d - 1 implies parent_of(parents, #[trigger] ancestor(parents, t, i))
        != src by {
        lemma_ancestor_walk(grid, src, parents, depth, t, (i + 1) as nat);
        assert(ancestor(parents, t, (i + 1) as nat) == parent_of(parents, ancestor(parents, t, i)));
    }
}

/// Follow the came-from pointers back from `target` to find the very first
/// step to take when leaving `source`: the first tile on the chain whose
/// parent is `source`. `None` if `target` isn't reachable. The chain must
/// reach `source` (after `k` pointers at most).
fn first_step_towards(
    parents: &Vec<Option<Pos>>,
    source: Pos,
    target: Pos,
    Ghost(k): Ghost<nat>,
) -> (r: Option<Pos>)
    requires
        parents@.len() == BOARD_TILES,
        found(parents@, target) ==> chain_reaches(parents@, source, target, k),
    ensures
        r is None <==> !found(parents@, target),
        r matches Some(x) ==> exists|j: nat|
            #![trigger ancestor(parents@, target, j)]
            j <= k && x == ancestor(parents@, target, j) && parent_of(parents@, x) == source
                && forall|i: nat|
                i < j ==> parent_of(parents@, #[trigger] ancestor(parents@, target, i)) != source,
{
    if !(target.0 < GRID_WIDTH && target.1 < GRID_HEIGHT) {
        return None;
    }
    if parents[index_of(target)].is_none() {
        return None;
    }
    let mut current = target;
    let ghost mut j: nat = 0;
    loop
        invariant
            parents@.len() == BOARD_TILES,
            found(parents@, target),
            chain_reaches(parents@, source, target, k),
            j <= k,
            current == ancestor(parents@, target, j),
            forall|i: nat|
                i < j ==> parent_of(parents@, #[trigger] ancestor(parents@, target, i)) != source,
        decreases k - j,
    {
        assert(found(parents@, ancestor(parents@, target, j)));
        let parent = parents[index_of(current)].unwrap();
        if parent.0 == source.0 && parent.1 == source.1 {
            assert(parent == source);
            return Some(current);
        }
        proof {
            assert(ancestor(parents@, target, (j + 1) as nat) == parent_of(
                parents@,
                ancestor(parents@, target, j),
            ));
            j = j + 1;
        }
        current = parent;
    }
}

// ---------------------------------------------------------------------------
// The next-step table.

/// Next-step lookup table: for a floor tile `from` and a tile `to` reachable
/// from it, the first tile to step onto when walking a shortest path from
/// `from` to `to`. Built once per level, so skeleton chasing is a lookup
/// instead of a search every tick.
pub struct PathMap {
    table: Vec<Option<Vec<Option<Pos>>>>,
}

/// `row` is the next-step row of source `s`: it has an entry exactly for
/// the tiles other than `s` that can be reached from `s`, and each entry is
/// the first step of a shortest walk there.
pub open spec fn row_ok(grid: Seq<Vec<TileType>>, s: Pos, row: Seq<Option<Pos>>) -> bool {
    &&& row.len() == BOARD_TILES
    &&& forall|t: Pos|
        #![trigger row[tile_index(t)]]
        in_board(t) ==> {
            &&& (row[tile_index(t)] is Some <==> t != s && reachable(grid, s, t))
            &&& row[tile_index(t)] is Some ==> first_step_of_shortest(
                grid,
                s,
                t,
                row[tile_index(t)]->0,
            )
            &&& row[tile_index(t)] is Some ==> exists|w: Seq<Pos>|
                #[trigger] least_shortest_walk(grid, s, t, w) && w[1] == row[tile_index(t)]->0
        }
}

impl PathMap {
    /// The table has a row for every slot, and every row an entry for every
    /// slot.
    pub closed spec fn wf(self) -> bool {
        &&& self.table@.len() == BOARD_TILES
        &&& forall|i: int|
            0 <= i < BOARD_TILES && #[trigger] self.table@[i] is Some ==> self.table@[i]->0@.len()
                == BOARD_TILES
    }

    /// The table has a row for `s`: `s` is one of the map's sources.
    pub closed spec fn has_source(self, s: Pos) -> bool {
        in_board(s) && self.table@[tile_index(s)] is Some
    }

    /// The row of `s`.
    pub closed spec fn row(self, s: Pos) -> Seq<Option<Pos>> {
        self.table@[tile_index(s)]->0@
    }

    /// The first step from `s` towards `t`, if the table holds one.
    pub closed spec fn route(self, s: Pos, t: Pos) -> Option<Pos> {
        if self.has_source(s) && in_board(t) {
            self.row(s)[tile_index(t)]
        } else {
            None
        }
    }

    /// How many tiles the row of `s` holds a step towards.
    pub closed spec fn route_count(self, s: Pos) -> nat {
        count_found(self.row(s))
    }

    /// The table holds a row for `s`.
    pub fn contains_source(&self, s: Pos) -> (r: bool)
        requires
            self.wf(),
        ensures
            r == self.has_source(s),
    {
        if s.0 < GRID_WIDTH && s.1 < GRID_HEIGHT {
            self.table[index_of(s)].is_some()
        } else {
            false
        }
    }

    /// The first step from `s` towards `t` (the row of `s` must exist).
    pub fn get(&self, s: Pos, t: Pos) -> (r: Option<Pos>)
        requires
            self.wf(),
            self.has_source(s),
        ensures
            r == self.route(s, t),
    {
        if t.0 < GRID_WIDTH && t.1 < GRID_HEIGHT {
            let i = index_of(s);
            let j = index_of(t);
            match &self.table[i] {
                Some(row) => row[j],
                None => None,
            }
        } else {
            None
        }
    }

    /// Whether the row of `s` holds a step towards `t`.
    pub fn contains_route(&self, s: Pos, t: Pos) -> (r: bool)
        requires
            self.wf(),
            self.has_source(s),
        ensures
            r == (self.route(s, t) is Some),
    {
        self.get(s, t).is_some()
    }

    /// How many tiles the row of `s` holds a step towards.
    pub fn len_from(&self, s: Pos) -> (n: usize)
        requires
            self.wf(),
            self.has_source(s),
        ensures
            n == self.route_count(s),
    {
        let i = index_of(s);
        match &self.table[i] {
            Some(row) => {
                let mut n: usize = 0;
                let mut j: usize = 0;
                while j < row.len()
                    invariant
                        j <= row@.len(),
                        row@.len() == BOARD_TILES,
                        row@ == self.row(s),
                        n == count_found(row@.subrange(0, j as int)),
                        n <= j,
                    decreases row@.len() - j,
                {
                    assert(row@.subrange(0, j + 1).drop_last() =~= row@.subrange(0, j as int));
                    if row[j].is_some() {
                        n += 1;
                    }
                    j += 1;
                }
                assert(row@.subrange(0, row@.len() as int) =~= row@);
                n
            },
            None => 0,
        }
    }
}

/// A row holding at least two entries holds entries in two distinct slots.
proof fn lemma_two_found(s: Seq<Option<Pos>>)
    requires
        count_found(s) >= 2,
    ensures
        exists|i: int, j: int| 0 <= i < j < s.len() && #[trigger] s[i] is Some && #[trigger] s[j] is Some,
    decreases s.len(),
{
    let d = s.drop_last();
    if s.last() is Some && count_found(d) >= 1 {
        lemma_one_found(d);
        let i = choose|i: int| 0 <= i < d.len() && #[trigger] d[i] is Some;
        assert(s[i] is Some && s[s.len() - 1] is Some);
    } else {
        lemma_two_found(d);
        let (i, j) = choose|i: int, j: int| 0 <= i < j < d.len() && #[trigger] d[i] is Some && #[trigger] d[j] is Some;
        assert(s[i] is Some && s[j] is Some);
    }
}

proof fn lemma_one_found(s: Seq<Option<Pos>>)
    requires
        count_found(s) >= 1,
    ensures
        exists|i: int| 0 <= i < s.len() && #[trigger] s[i] is Some,
    decreases s.len(),
{
    let d = s.drop_last();
    if s.last() is Some {
        assert(s[s.len() - 1] is Some);
    } else {
        lemma_one_found(d);
        let i = choose|i: int| 0 <= i < d.len() && #[trigger] d[i] is Some;
        assert(s[i] is Some);
    }
}

/// `pm` is the next-step table of `grid`: it has a row for exactly the floor
/// tiles, and each row is right.
pub open spec fn is_path_map(grid: Seq<Vec<TileType>>, pm: PathMap) -> bool {
    &&& pm.wf()
    &&& forall|s: Pos| #[trigger] pm.has_source(s) <==> is_floor(grid, s)
    &&& forall|s: Pos, t: Pos|
        #[trigger] pm.route(s, t) is Some <==> (is_floor(grid, s) && t != s && reachable(
            grid,
            s,
            t,
        ) && in_board(t))
    &&& forall|s: Pos, t: Pos|
        #[trigger] pm.route(s, t) is Some ==> first_step_of_shortest(grid, s, t, pm.route(s, t)->0)
    &&& forall|s: Pos, t: Pos|
        #[trigger] pm.route(s, t) is Some ==> exists|w: Seq<Pos>|
            #[trigger] least_shortest_walk(grid, s, t, w) && w[1] == pm.route(s, t)->0
}

/// Two tiles other than `s` that `s` reaches.
pub open spec fn two_others_reachable(grid: Seq<Vec<TileType>>, s: Pos) -> bool {
    exists|t1: Pos, t2: Pos|
        t1 != t2 && t1 != s && t2 != s && #[trigger] reachable(grid, s, t1) && #[trigger] reachable(
            grid,
            s,
            t2,
        )
}

/// Two slots holding an entry count for two.
proof fn lemma_count_two(s: Seq<Option<Pos>>, i: int, j: int)
    requires
        0 <= i < j < s.len(),
        s[i] is Some,
        s[j] is Some,
    ensures
        count_found(s) >= 2,
    decreases s.len(),
{
    let d = s.drop_last();
    if j < s.len() - 1 {
        lemma_count_two(d, i, j);
    } else {
        lemma_count_one(d, i);
    }
}

proof fn lemma_count_one(s: Seq<Option<Pos>>, i: int)
    requires
        0 <= i < s.len(),
        s[i] is Some,
    ensures
        count_found(s) >= 1,
    decreases s.len(),
{
    if i < s.len() - 1 {
        lemma_count_one(s.drop_last(), i);
    }
}

/// A source's row holds at least two routes exactly when it reaches at
/// least two other tiles.
pub proof fn lemma_route_count(grid: Seq<Vec<TileType>>, pm: PathMap, s: Pos)
    requires
        is_path_map(grid, pm),
        pm.has_source(s),
    ensures
        pm.route_count(s) >= 2 <==> two_others_reachable(grid, s),
{
    let row = pm.row(s);
    assert(is_floor(grid, s));
    if pm.route_count(s) >= 2 {
        lemma_two_found(row);
        let (i, j) = choose|i: int, j: int| 0 <= i < j < row.len() && #[trigger] row[i] is Some && #[trigger] row[j] is Some;
        lemma_tile_of(i);
        lemma_tile_of(j);
        let t1 = tile_of(i);
        let t2 = tile_of(j);
        assert(pm.route(s, t1) is Some);
        assert(pm.route(s, t2) is Some);
    }
    if two_others_reachable(grid, s) {
        let (t1, t2) = choose|t1: Pos, t2: Pos|
            t1 != t2 && t1 != s && t2 != s && #[trigger] reachable(grid, s, t1) && #[trigger] reachable(
                grid,
                s,
                t2,
            );
        lemma_reachable_in_board(grid, s, t1);
        lemma_reachable_in_board(grid, s, t2);
        assert(pm.route(s, t1) is Some);
        assert(pm.route(s, t2) is Some);
        lemma_tile_index(t1);
        lemma_tile_index(t2);
        lemma_tile_index_injective(t1, t2);
        let i = tile_index(t1);
        let j = tile_index(t2);
        if i < j {
            lemma_count_two(row, i, j);
        } else {
            lemma_count_two(row, j, i);
        }
    }
}

/// A tile reached from an on-board tile by a walk of at least one step is on
/// the board; a tile reached without a step is the start.
proof fn lemma_reachable_in_board(grid: Seq<Vec<TileType>>, s: Pos, t: Pos)
    requires
        in_board(s),
        reachable(grid, s, t),
    ensures
        in_board(t),
{
    let n = choose|n: nat| #[trigger] walk_of_len(grid, s, t, n);
    let w = choose|w: Seq<Pos>| #[trigger] is_walk(grid, w) && w.len() == n + 1 && w[0] == s && w.last() == t;
    if n > 0 {
        let i = w.len() - 2;
        assert(can_step(grid, w[i], w[i + 1]));
    }
}

/// The next-step table of a grid is determined by the grid: any two tables
/// that are right for it hold the same step for every pair of tiles.
pub proof fn lemma_path_map_determined(grid: Seq<Vec<TileType>>, pm1: PathMap, pm2: PathMap)
    requires
        is_path_map(grid, pm1),
        is_path_map(grid, pm2),
    ensures
        forall|s: Pos, t: Pos| #[trigger] pm1.route(s, t) == #[trigger] pm2.route(s, t),
{
    assert forall|s: Pos, t: Pos| #[trigger] pm1.route(s, t) == #[trigger] pm2.route(s, t) by {
        if pm1.route(s, t) is Some {
            assert(pm2.route(s, t) is Some);
            let w1 = choose|w: Seq<Pos>| #[trigger] least_shortest_walk(grid, s, t, w) && w[1] == pm1.route(s, t)->0;
            let w2 = choose|w: Seq<Pos>| #[trigger] least_shortest_walk(grid, s, t, w) && w[1] == pm2.route(s, t)->0;
            lemma_least_shortest_walk_unique(grid, s, t, w1, w2);
        } else {
            assert(pm2.route(s, t) is None);
        }
    }
}

/// The row of next steps out of `source`.
fn build_row(grid: &[Vec<TileType>], source: Pos) -> (row: Vec<Option<Pos>>)
    requires
        covers_board(grid@),
        in_board(source),
    ensures
        row_ok(grid@, source, row@),
{
    let (parents, Ghost(depth)) = bfs(grid, source);
    let mut row: Vec<Option<Pos>> = Vec::new();
    let mut j: usize = 0;
    while j < BOARD_TILES
        invariant
            j <= BOARD_TILES,
            bfs_tree(grid@, source, parents@, depth),
            row@.len() == j,
            forall|jj: int|
                0 <= jj < j ==> #[trigger] row@[jj] == if found(parents@, tile_of(jj)) && tile_of(jj)
                    != source {
                    Some(ancestor(parents@, tile_of(jj), (depth[jj] - 1) as nat))
                } else {
                    None
                },
        decreases BOARD_TILES - j,
    {
        proof {
            lemma_tile_of(j as int);
        }
        let target: Pos = ((j % 20) as u8, (j / 20) as u8);
        assert(target == tile_of(j as int));
        if parents[j].is_some() && !(target.0 == source.0 && target.1 == source.1) {
            let ghost d = depth[j as int];
            proof {
                lemma_tree_chain(grid@, source, parents@, depth, target);
            }
            let step = first_step_towards(&parents, source, target, Ghost((d - 1) as nat));
            proof {
                let x = step->0;
                let jj = choose|jj: nat|
                    #![trigger ancestor(parents@, target, jj)]
                    jj <= (d - 1) as nat && x == ancestor(parents@, target, jj) && parent_of(parents@, x)
                        == source && forall|i: nat|
                        i < jj ==> parent_of(parents@, #[trigger] ancestor(parents@, target, i))
                            != source;
                assert(jj == (d - 1) as nat);
            }
            row.push(step);
        } else {
            row.push(None);
        }
        j += 1;
    }
    proof {
        assert forall|t: Pos| #![trigger row@[tile_index(t)]] in_board(t) implies {
            &&& (row@[tile_index(t)] is Some <==> t != source && reachable(grid@, source, t))
            &&& row@[tile_index(t)] is Some ==> first_step_of_shortest(
                grid@,
                source,
                t,
                row@[tile_index(t)]->0,
            )
            &&& row@[tile_index(t)] is Some ==> exists|w: Seq<Pos>|
                #[trigger] least_shortest_walk(grid@, source, t, w) && w[1] == row@[tile_index(t)]->0
        } by {
            lemma_tile_index(t);
            let jj = tile_index(t);
            assert(row@[jj] == if found(parents@, tile_of(jj)) && tile_of(jj) != source {
                Some(ancestor(parents@, tile_of(jj), (depth[jj] - 1) as nat))
            } else {
                None
            });
            lemma_found_iff_reachable(grid@, source, parents@, depth, t);
            if found(parents@, t) && t != source {
                lemma_first_step(grid@, source, parents@, depth, t);
                lemma_first_step_least(grid@, source, parents@, depth, t);
            }
        }
    }
    row
}

/// Run one breadth-first search from every floor tile up front to build
/// the whole [`PathMap`].
pub fn build_map(grid: &[Vec<TileType>]) -> (pm: PathMap)
    requires
        covers_board(grid@),
    ensures
        is_path_map(grid@, pm),
{
    let mut table: Vec<Option<Vec<Option<Pos>>>> = Vec::new();
    let mut y: u8 = 0;
    while y < GRID_HEIGHT
        invariant
            y <= GRID_HEIGHT,
            covers_board(grid@),
            table@.len() == y * GRID_WIDTH,
            forall|i: int|
                0 <= i < table@.len() ==> {
                    &&& (#[trigger] table@[i] is Some <==> is_floor(grid@, tile_of(i)))
                    &&& table@[i] is Some ==> row_ok(grid@, tile_of(i), table@[i]->0@)
                },
        decreases GRID_HEIGHT - y,
    {
        let mut x: u8 = 0;
        while x < GRID_WIDTH
            invariant
                y < GRID_HEIGHT,
                x <= GRID_WIDTH,
                covers_board(grid@),
                table@.len() == y * GRID_WIDTH + x,
                forall|i: int|
                    0 <= i < table@.len() ==> {
                        &&& (#[trigger] table@[i] is Some <==> is_floor(grid@, tile_of(i)))
                        &&& table@[i] is Some ==> row_ok(grid@, tile_of(i), table@[i]->0@)
                    },
            decreases GRID_WIDTH - x,
        {
            proof {
                lemma_tile_index((x, y));
            }
            assert(tile_of(table@.len() as int) == (x, y));
            let is_floor_tile = match grid[y as usize][x as usize] {
                TileType::Floor => true,
                _ => false,
            };
            if is_floor_tile {
                let row = build_row(grid, (x, y));
                table.push(Some(row));
            } else {
                table.push(None);
            }
            x += 1;
        }
        y += 1;
    }
    let pm = PathMap { table };
    proof {
        assert forall|s: Pos| #[trigger] pm.has_source(s) <==> is_floor(grid@, s) by {
            if in_board(s) {
                lemma_tile_index(s);
            }
        }
        assert forall|s: Pos, t: Pos|
            #[trigger] pm.route(s, t) is Some <==> (is_floor(grid@, s) && t != s && reachable(
                grid@,
                s,
                t,
            ) && in_board(t)) by {
            if in_board(s) {
                lemma_tile_index(s);
            }
        }
        assert forall|s: Pos, t: Pos| #[trigger]
            pm.route(s, t) is Some implies first_step_of_shortest(grid@, s, t, pm.route(s, t)->0) by {
            lemma_tile_index(s);
        }
        assert forall|s: Pos, t: Pos| #[trigger] pm.route(s, t) is Some implies exists|w: Seq<Pos>|
            #[trigger] least_shortest_walk(grid@, s, t, w) && w[1] == pm.route(s, t)->0 by {
            lemma_tile_index(s);
        }
    }
    pm
}

proof fn lemma_count_prefix_none(s: Seq<Option<Pos>>, j: int)
    requires
        0 <= j <= s.len(),
        forall|i: int| 0 <= i < s.len() ==> s[i] is None,
    ensures
        count_found(s.subrange(0, j)) == 0,
    decreases j,
{
    if j > 0 {
        lemma_count_prefix_none(s, j - 1);
        assert(s.subrange(0, j).drop_last() =~= s.subrange(0, j - 1));
    }
}

} // verus!
