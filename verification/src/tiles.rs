//! The tile set used for arena generation and the expansion of a grid of
//! tiles into a wall grid three times as large.
use vstd::prelude::*;
use vstd::arithmetic::div_mod::lemma_fundamental_div_mod_converse;
use crate::grid::in_grid;
use crate::wfc::{
    collapse_result, lemma_collapse_keeps_consistency, lemma_unfixed_grid_consistent, opposite, tiles_match, tiles_wf,
    tiling_consistent, toward, WfcGrid, WfcTile,
};

verus! {

/// Edges (north, east, south, west) of tile `i` of the tile set: open,
/// solid, two straights, four corners and four T-junctions.
pub open spec fn shape_edges(i: int) -> Seq<u8> {
    if i == 0 {
        seq![0u8, 0, 0, 0]
    } else if i == 1 {
        seq![1u8, 1, 1, 1]
    } else if i == 2 {
        seq![0u8, 1, 0, 1]
    } else if i == 3 {
        seq![1u8, 0, 1, 0]
    } else if i == 4 {
        seq![1u8, 1, 0, 0]
    } else if i == 5 {
        seq![0u8, 1, 1, 0]
    } else if i == 6 {
        seq![0u8, 0, 1, 1]
    } else if i == 7 {
        seq![1u8, 0, 0, 1]
    } else if i == 8 {
        seq![1u8, 1, 0, 1]
    } else if i == 9 {
        seq![1u8, 1, 1, 0]
    } else if i == 10 {
        seq![0u8, 1, 1, 1]
    } else {
        seq![1u8, 0, 1, 1]
    }
}

/// Number of wall edges among the four.
pub open spec fn wall_edge_count(e: Seq<u8>) -> int {
    e[0] as int + e[1] as int + e[2] as int + e[3] as int
}

/// What the tile set is: twelve different tiles, each edge open (0) or wall
/// (1), and in this order: the open tile, the solid tile, the straight wall
/// running east-west, the straight wall running north-south, the four
/// corners (walls on edge `k` and the next one clockwise, for `k` from
/// north on), and the four T-junctions (open only on edge `k + 2`, turning
/// clockwise from north). Every way of walling the edges but a dead end (a
/// single wall edge) appears once.
pub proof fn lemma_tile_set_shapes()
    ensures
        forall|i: int| 0 <= i < 12 ==> (#[trigger] shape_edges(i)).len() == 4,
        forall|i: int, e: int| 0 <= i < 12 && 0 <= e < 4 ==> #[trigger] shape_edges(i)[e] <= 1,
        forall|i: int, j: int| 0 <= i < j < 12 ==> #[trigger] shape_edges(i) != #[trigger] shape_edges(j),
        forall|i: int| 0 <= i < 12 ==> wall_edge_count(#[trigger] shape_edges(i)) != 1,
        wall_edge_count(shape_edges(0)) == 0,
        wall_edge_count(shape_edges(1)) == 4,
        forall|i: int| 2 <= i < 8 ==> wall_edge_count(#[trigger] shape_edges(i)) == 2,
        forall|i: int| 8 <= i < 12 ==> wall_edge_count(#[trigger] shape_edges(i)) == 3,
        shape_edges(2)[1] == 1 && shape_edges(2)[3] == 1,
        shape_edges(3)[0] == 1 && shape_edges(3)[2] == 1,
        forall|k: int| 0 <= k < 4 ==> #[trigger] shape_edges(4 + k)[k] == 1 && shape_edges(4 + k)[(k + 1) % 4] == 1,
        forall|k: int| 0 <= k < 4 ==> #[trigger] shape_edges(8 + k)[(k + 2) % 4] == 0,
{
    assert forall|i: int, j: int| 0 <= i < j < 12 implies #[trigger] shape_edges(i) != #[trigger] shape_edges(j) by {
        let a = shape_edges(i);
        let b = shape_edges(j);
        if a == b {
            assert(a[0] == b[0] && a[1] == b[1] && a[2] == b[2] && a[3] == b[3]);
        }
    }
}

/// How each tile of the set is drawn: the middle cell of each side is a
/// wall exactly when that edge is, the centre is a wall on every tile but
/// the open one, and the corners are walls on the solid tile alone.
pub proof fn lemma_tile_set_drawings(tiles: Seq<WfcTile>)
    requires
        tiles.len() == 12,
        forall|i: int| 0 <= i < 12 ==> (#[trigger] tiles[i]).edges@ == shape_edges(i),
        patterns_follow_edges(tiles),
    ensures
        forall|i: int| 0 <= i < 12 ==> {
            let p = #[trigger] pattern_view(tiles[i]);
            let e = tiles[i].edges@;
            &&& p[0][1] == (e[0] == 1) && p[1][2] == (e[1] == 1) && p[2][1] == (e[2] == 1) && p[1][0] == (e[3] == 1)
            &&& p[1][1] == (i != 0)
            &&& p[0][0] == (i == 1) && p[0][2] == (i == 1) && p[2][0] == (i == 1) && p[2][2] == (i == 1)
        },
{
    assert forall|i: int| 0 <= i < 12 implies {
        let p = #[trigger] pattern_view(tiles[i]);
        let e = tiles[i].edges@;
        &&& p[0][1] == (e[0] == 1) && p[1][2] == (e[1] == 1) && p[2][1] == (e[2] == 1) && p[1][0] == (e[3] == 1)
        &&& p[1][1] == (i != 0)
        &&& p[0][0] == (i == 1) && p[0][2] == (i == 1) && p[2][0] == (i == 1) && p[2][2] == (i == 1)
    } by {
        assert(pattern_view(tiles[i]) == pattern_of(tiles[i].edges@));
    }
}

/// The 3 by 3 block a tile with edges `e` draws: the middle of each side is
/// a wall when that edge is, the centre is a wall when any edge is, the
/// corners only when every edge is.
pub open spec fn pattern_of(e: Seq<u8>) -> Seq<Seq<bool>> {
    let n = e[0] == 1;
    let ea = e[1] == 1;
    let s = e[2] == 1;
    let w = e[3] == 1;
    let all = n && ea && s && w;
    let any = n || ea || s || w;
    seq![seq![all, n, all], seq![w, any, ea], seq![all, s, all]]
}

/// The pattern of a tile as nested sequences.
pub open spec fn pattern_view(t: WfcTile) -> Seq<Seq<bool>> {
    t.pattern@.map_values(|row: [bool; 3]| row@)
}

/// Every tile draws the pattern its edges call for.
pub open spec fn patterns_follow_edges(tiles: Seq<WfcTile>) -> bool {
    forall|i: int| 0 <= i < tiles.len() ==> pattern_view(#[trigger] tiles[i]) == pattern_of(tiles[i].edges@)
}

fn tile(edges: [u8; 4], pattern: [[bool; 3]; 3]) -> (t: WfcTile)
    ensures
        t.edges == edges && t.pattern == pattern,
{
    WfcTile { edges, pattern }
}

/// The twelve tiles, in a fixed order that tile weights refer to.
pub fn wfc_tile_shapes() -> (tiles: Vec<WfcTile>)
    ensures
        tiles@.len() == 12,
        forall|i: int| 0 <= i < 12 ==> (#[trigger] tiles@[i]).edges@ == shape_edges(i),
        patterns_follow_edges(tiles@),
        tiles_wf(tiles@),
{
    let f = false;
    let t = true;
    let v = vec![
        tile([0, 0, 0, 0], [[f, f, f], [f, f, f], [f, f, f]]),
        tile([1, 1, 1, 1], [[t, t, t], [t, t, t], [t, t, t]]),
        tile([0, 1, 0, 1], [[f, f, f], [t, t, t], [f, f, f]]),
        tile([1, 0, 1, 0], [[f, t, f], [f, t, f], [f, t, f]]),
        tile([1, 1, 0, 0], [[f, t, f], [f, t, t], [f, f, f]]),
        tile([0, 1, 1, 0], [[f, f, f], [f, t, t], [f, t, f]]),
        tile([0, 0, 1, 1], [[f, f, f], [t, t, f], [f, t, f]]),
        tile([1, 0, 0, 1], [[f, t, f], [t, t, f], [f, f, f]]),
        tile([1, 1, 0, 1], [[f, t, f], [t, t, t], [f, f, f]]),
        tile([1, 1, 1, 0], [[f, t, f], [f, t, t], [f, t, f]]),
        tile([0, 1, 1, 1], [[f, f, f], [t, t, t], [f, t, f]]),
        tile([1, 0, 1, 1], [[f, t, f], [t, t, f], [f, t, f]]),
    ];
    proof {
        assert forall|i: int| 0 <= i < 12 implies (#[trigger] v@[i]).edges@ == shape_edges(i) by {
            assert(v@[i].edges@ =~= shape_edges(i));
        }
        assert forall|i: int| 0 <= i < v@.len() implies pattern_view(#[trigger] v@[i]) == pattern_of(v@[i].edges@) by {
            assert(v@[i].edges@ =~= shape_edges(i));
            let pv = pattern_view(v@[i]);
            let po = pattern_of(v@[i].edges@);
            assert forall|k: int| 0 <= k < 3 implies #[trigger] pv[k] =~= po[k] by {}
            assert(pv =~= po);
        }
        assert forall|i: int, e: int| 0 <= i < v@.len() && 0 <= e < 4 implies #[trigger] v@[i].edges@[e] <= 1 by {
            assert(v@[i].edges@ =~= shape_edges(i));
        }
    }
    v
}

/// Cell `(i, j)` of the expansion of a grid of tile indices.
pub open spec fn expanded(result: Seq<Vec<usize>>, tiles: Seq<WfcTile>, i: int, j: int) -> bool {
    pattern_view(tiles[result[i / 3]@[j / 3] as int])[i % 3][j % 3]
}

/// Expands each tile of a grid of tile indices into its 3 by 3 pattern.
pub fn wfc_to_grid(result: &[Vec<usize>], tiles: &[WfcTile]) -> (grid: Vec<Vec<bool>>)
    requires
        result@.len() >= 1,
        forall|r: int| 0 <= r < result@.len() ==> (#[trigger] result@[r])@.len() >= result@[0]@.len(),
        forall|r: int, c: int|
            0 <= r < result@.len() && 0 <= c < result@[0]@.len() ==> #[trigger] result@[r]@[c] < tiles@.len(),
        result@.len() * 3 <= usize::MAX,
        result@[0]@.len() * 3 <= usize::MAX,
    ensures
        grid@.len() == result@.len() * 3,
        forall|i: int| 0 <= i < grid@.len() ==> (#[trigger] grid@[i])@.len() == result@[0]@.len() * 3,
        forall|i: int, j: int|
            0 <= i < result@.len() * 3 && 0 <= j < result@[0]@.len() * 3 ==> #[trigger] grid@[i]@[j] == expanded(
                result@,
                tiles@,
                i,
                j,
            ),
{
    let wfc_rows = result.len();
    let wfc_cols = result[0].len();
    let height = wfc_rows * 3;
    let width = wfc_cols * 3;
    let mut grid: Vec<Vec<bool>> = Vec::new();
    let mut i: usize = 0;
    while i < height
        invariant
            height == wfc_rows * 3,
            width == wfc_cols * 3,
            wfc_rows == result@.len(),
            wfc_cols == result@[0]@.len(),
            forall|r: int| 0 <= r < result@.len() ==> (#[trigger] result@[r])@.len() >= result@[0]@.len(),
            forall|r: int, c: int|
                0 <= r < result@.len() && 0 <= c < result@[0]@.len() ==> #[trigger] result@[r]@[c] < tiles@.len(),
            i <= height,
            grid@.len() == i,
            forall|k: int| 0 <= k < i ==> (#[trigger] grid@[k])@.len() == width,
            forall|k: int, j: int| 0 <= k < i && 0 <= j < width ==> #[trigger] grid@[k]@[j] == expanded(result@, tiles@, k, j),
        decreases height - i,
    {
        let mut row: Vec<bool> = Vec::new();
        let mut j: usize = 0;
        while j < width
            invariant
                height == wfc_rows * 3,
                width == wfc_cols * 3,
                wfc_rows == result@.len(),
                wfc_cols == result@[0]@.len(),
                forall|r: int| 0 <= r < result@.len() ==> (#[trigger] result@[r])@.len() >= result@[0]@.len(),
                forall|r: int, c: int|
                    0 <= r < result@.len() && 0 <= c < result@[0]@.len() ==> #[trigger] result@[r]@[c] < tiles@.len(),
                i < height,
                j <= width,
                row@.len() == j,
                forall|k: int| 0 <= k < j ==> #[trigger] row@[k] == expanded(result@, tiles@, i as int, k),
            decreases width - j,
        {
            let r = i / 3;
            let c = j / 3;
            let t = result[r][c];
            let v = tiles[t].pattern[i % 3][j % 3];
            row.push(v);
            j = j + 1;
        }
        grid.push(row);
        proof {
            assert forall|k: int, jj: int| 0 <= k < i + 1 && 0 <= jj < width implies #[trigger] grid@[k]@[jj] == expanded(
                result@,
                tiles@,
                k,
                jj,
            ) by {
                if k == i as int {
                    assert(grid@[k]@ == row@);
                }
            }
        }
        i = i + 1;
    }
    grid
}

/// In the expansion of a grid of matching tiles whose patterns follow their
/// edges, walls run on across tile sides: the middle cells on both sides of
/// a tile boundary agree.
pub proof fn lemma_expanded_seams(result: Seq<Vec<usize>>, tiles: Seq<WfcTile>, r: int, c: int)
    requires
        patterns_follow_edges(tiles),
        0 <= r < result.len(),
        0 <= c < result[r]@.len(),
        0 <= result[r]@[c] < tiles.len(),
        r + 1 < result.len() ==> 0 <= c < result[r + 1]@.len() && 0 <= result[r + 1]@[c] < tiles.len() && tiles_match(
            tiles,
            result[r]@[c] as int,
            result[r + 1]@[c] as int,
            2,
        ),
        c + 1 < result[r]@.len() ==> 0 <= result[r]@[c + 1] < tiles.len() && tiles_match(
            tiles,
            result[r]@[c] as int,
            result[r]@[c + 1] as int,
            1,
        ),
    ensures
        r + 1 < result.len() ==> expanded(result, tiles, 3 * r + 2, 3 * c + 1) == expanded(result, tiles, 3 * r + 3, 3 * c + 1),
        c + 1 < result[r]@.len() ==> expanded(result, tiles, 3 * r + 1, 3 * c + 2) == expanded(result, tiles, 3 * r + 1, 3 * c + 3),
{
    lemma_fundamental_div_mod_converse(3 * r + 1, 3, r, 1);
    lemma_fundamental_div_mod_converse(3 * r + 2, 3, r, 2);
    lemma_fundamental_div_mod_converse(3 * r + 3, 3, r + 1, 0);
    lemma_fundamental_div_mod_converse(3 * c + 1, 3, c, 1);
    lemma_fundamental_div_mod_converse(3 * c + 2, 3, c, 2);
    lemma_fundamental_div_mod_converse(3 * c + 3, 3, c + 1, 0);
    let t = result[r]@[c] as int;
    assert(pattern_view(tiles[t]) == pattern_of(tiles[t].edges@));
    if r + 1 < result.len() {
        let u = result[r + 1]@[c] as int;
        assert(pattern_view(tiles[u]) == pattern_of(tiles[u].edges@));
        assert(opposite(2) == 0);
    }
    if c + 1 < result[r]@.len() {
        let u = result[r]@[c + 1] as int;
        assert(pattern_view(tiles[u]) == pattern_of(tiles[u].edges@));
        assert(opposite(1) == 3);
    }
}

/// When every cell of a consistent grid is fixed, the expansion of its
/// tiles continues every wall line across every tile seam: the middle cells
/// on both sides of each boundary between neighbouring tiles agree.
pub proof fn lemma_finished_grid_seams(w: WfcGrid, tiles: Seq<WfcTile>, result: Seq<Vec<usize>>)
    requires
        w.wf(),
        w.all_fixed(),
        tiling_consistent(w, tiles),
        patterns_follow_edges(tiles),
        tiles.len() == w.n,
        result.len() == w.rows,
        forall|r: int| 0 <= r < w.rows ==> (#[trigger] result[r])@.len() == w.cols,
        forall|a: (int, int)| in_grid(w.rows as int, w.cols as int, a) ==> #[trigger] result[a.0]@[a.1] == w.fixed(a)->0,
    ensures
        forall|r: int, c: int|
            0 <= r < w.rows && 0 <= c && c + 1 < w.cols ==> #[trigger] expanded(result, tiles, 3 * r + 1, 3 * c + 2) == expanded(
                result,
                tiles,
                3 * r + 1,
                3 * c + 3,
            ),
        forall|r: int, c: int|
            0 <= r && r + 1 < w.rows && 0 <= c < w.cols ==> #[trigger] expanded(result, tiles, 3 * r + 2, 3 * c + 1) == expanded(
                result,
                tiles,
                3 * r + 3,
                3 * c + 1,
            ),
{
    assert forall|r: int, c: int| 0 <= r < w.rows && 0 <= c && c + 1 < w.cols implies #[trigger] expanded(
        result,
        tiles,
        3 * r + 1,
        3 * c + 2,
    ) == expanded(result, tiles, 3 * r + 1, 3 * c + 3) by {
        lemma_fixed_neighbours_match(w, tiles, result, r, c);
    }
    assert forall|r: int, c: int| 0 <= r && r + 1 < w.rows && 0 <= c < w.cols implies #[trigger] expanded(
        result,
        tiles,
        3 * r + 2,
        3 * c + 1,
    ) == expanded(result, tiles, 3 * r + 3, 3 * c + 1) by {
        lemma_fixed_neighbours_match(w, tiles, result, r, c);
    }
}

/// The seams around cell `(r, c)` of a finished consistent grid.
proof fn lemma_fixed_neighbours_match(w: WfcGrid, tiles: Seq<WfcTile>, result: Seq<Vec<usize>>, r: int, c: int)
    requires
        w.wf(),
        w.all_fixed(),
        tiling_consistent(w, tiles),
        patterns_follow_edges(tiles),
        tiles.len() == w.n,
        result.len() == w.rows,
        forall|r: int| 0 <= r < w.rows ==> (#[trigger] result[r])@.len() == w.cols,
        forall|a: (int, int)| in_grid(w.rows as int, w.cols as int, a) ==> #[trigger] result[a.0]@[a.1] == w.fixed(a)->0,
        0 <= r < w.rows,
        0 <= c < w.cols,
    ensures
        r + 1 < w.rows ==> expanded(result, tiles, 3 * r + 2, 3 * c + 1) == expanded(result, tiles, 3 * r + 3, 3 * c + 1),
        c + 1 < w.cols ==> expanded(result, tiles, 3 * r + 1, 3 * c + 2) == expanded(result, tiles, 3 * r + 1, 3 * c + 3),
{
    let p = (r, c);
    assert(w.fixed(p) is Some);
    assert(result[r]@[c] == w.fixed(p)->0);
    if r + 1 < w.rows {
        let q = toward(p, 2);
        assert(q == (r + 1, c));
        assert(w.fixed(q) is Some);
        assert(result[r + 1]@[c] == w.fixed(q)->0);
    }
    if c + 1 < w.cols {
        let q = toward(p, 1);
        assert(q == (r, c + 1));
        assert(w.fixed(q) is Some);
        assert(result[r]@[c + 1] == w.fixed(q)->0);
    }
    lemma_expanded_seams(result, tiles, r, c);
}

/// Each step of a run fixes an unfixed cell of the grid before it to one of
/// that cell's possible tiles and propagates.
pub open spec fn run_steps(states: Seq<WfcGrid>, picks: Seq<(int, int, int)>, tiles: Seq<WfcTile>) -> bool {
    &&& states.len() == picks.len() + 1
    &&& forall|i: int|
        0 <= i < picks.len() ==> {
            let w = states[i];
            let a = (picks[i].0, picks[i].1);
            &&& in_grid(w.rows as int, w.cols as int, a)
            &&& 0 <= picks[i].2 < w.n
            &&& w.fixed(a) is None
            &&& w.opts(a)[picks[i].2]
            &&& collapse_result(w, #[trigger] states[i + 1], a.0, a.1, picks[i].2, tiles)
        }
}

/// Every grid of a run that starts with no fixed cell is consistent and
/// keeps the first grid's shape.
proof fn lemma_run_consistent(states: Seq<WfcGrid>, picks: Seq<(int, int, int)>, tiles: Seq<WfcTile>, i: int)
    requires
        run_steps(states, picks, tiles),
        states[0].wf(),
        forall|a: (int, int)| in_grid(states[0].rows as int, states[0].cols as int, a) ==> #[trigger] states[0].fixed(a) is None,
        tiles.len() == states[0].n,
        0 <= i < states.len(),
    ensures
        states[i].wf(),
        states[i].rows == states[0].rows && states[i].cols == states[0].cols && states[i].n == states[0].n,
        tiling_consistent(states[i], tiles),
    decreases i,
{
    if i == 0 {
        lemma_unfixed_grid_consistent(states[0], tiles);
    } else {
        lemma_run_consistent(states, picks, tiles, i - 1);
        let j = i - 1;
        assert(collapse_result(states[j], states[j + 1], picks[j].0, picks[j].1, picks[j].2, tiles));
        lemma_collapse_keeps_consistency(states[j], states[i], picks[j].0, picks[j].1, picks[j].2, tiles);
    }
}

/// A whole run of wave function collapse: starting from a grid with no fixed
/// cell, each step fixes an unfixed cell to one of its possible tiles and
/// propagates. Once every cell is fixed, the expansion of the result
/// continues every wall line across every tile seam.
pub proof fn lemma_run_seams(states: Seq<WfcGrid>, picks: Seq<(int, int, int)>, tiles: Seq<WfcTile>, result: Seq<Vec<usize>>)
    requires
        run_steps(states, picks, tiles),
        states[0].wf(),
        forall|a: (int, int)| in_grid(states[0].rows as int, states[0].cols as int, a) ==> #[trigger] states[0].fixed(a) is None,
        tiles.len() == states[0].n,
        patterns_follow_edges(tiles),
        states.last().all_fixed(),
        result.len() == states.last().rows,
        forall|r: int| 0 <= r < states.last().rows ==> (#[trigger] result[r])@.len() == states.last().cols,
        forall|a: (int, int)|
            in_grid(states.last().rows as int, states.last().cols as int, a) ==> #[trigger] result[a.0]@[a.1] == states.last().fixed(a)->0,
    ensures
        forall|r: int, c: int|
            0 <= r < states[0].rows && 0 <= c && c + 1 < states[0].cols ==> #[trigger] expanded(result, tiles, 3 * r + 1, 3 * c + 2)
                == expanded(result, tiles, 3 * r + 1, 3 * c + 3),
        forall|r: int, c: int|
            0 <= r && r + 1 < states[0].rows && 0 <= c < states[0].cols ==> #[trigger] expanded(result, tiles, 3 * r + 2, 3 * c + 1)
                == expanded(result, tiles, 3 * r + 3, 3 * c + 1),
{
    lemma_run_consistent(states, picks, tiles, states.len() - 1);
    lemma_finished_grid_seams(states.last(), tiles, result);
}

} // verus!
