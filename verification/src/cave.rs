//! Cellular-automaton smoothing of a random wall grid into caves: a cell
//! becomes a wall when at least five of its eight neighbours are walls,
//! cells beyond the edge counting as walls.
use vstd::prelude::*;
use crate::counting::count_true;
use crate::grid::is_rect;

verus! {

/// Cell `(r, c)` is a wall, or lies outside the `rows` by `cols` grid.
pub open spec fn wall_or_outside(g: Seq<Seq<bool>>, rows: int, cols: int, r: int, c: int) -> bool {
    !(0 <= r < rows && 0 <= c < cols) || g[r][c]
}

pub open spec fn wall_count_term(g: Seq<Seq<bool>>, rows: int, cols: int, r: int, c: int) -> int {
    if wall_or_outside(g, rows, cols, r, c) {
        1
    } else {
        0
    }
}

/// Number of the eight neighbours of `(r, c)` that are walls or outside.
pub open spec fn wall_neighbours(g: Seq<Seq<bool>>, rows: int, cols: int, r: int, c: int) -> int {
    wall_count_term(g, rows, cols, r - 1, c - 1) + wall_count_term(g, rows, cols, r - 1, c)
        + wall_count_term(g, rows, cols, r - 1, c + 1) + wall_count_term(g, rows, cols, r, c - 1)
        + wall_count_term(g, rows, cols, r, c + 1) + wall_count_term(g, rows, cols, r + 1, c - 1)
        + wall_count_term(g, rows, cols, r + 1, c) + wall_count_term(g, rows, cols, r + 1, c + 1)
}

/// One smoothing pass.
pub open spec fn smoothed_once(g: Seq<Seq<bool>>, rows: int, cols: int) -> Seq<Seq<bool>> {
    Seq::new(rows as nat, |r: int| Seq::new(cols as nat, |c: int| wall_neighbours(g, rows, cols, r, c) >= 5))
}

/// `k` smoothing passes.
pub open spec fn smoothed(g: Seq<Seq<bool>>, rows: int, cols: int, k: nat) -> Seq<Seq<bool>>
    decreases k,
{
    if k == 0 {
        g
    } else {
        smoothed_once(smoothed(g, rows, cols, (k - 1) as nat), rows, cols)
    }
}

/// The rows of a grid as plain sequences.
pub open spec fn cells(g: Seq<Vec<bool>>) -> Seq<Seq<bool>> {
    g.map_values(|row: Vec<bool>| row@)
}

fn wall_or_outside_at(g: &Vec<Vec<bool>>, rows: usize, cols: usize, r: usize, c: usize, dr: usize, dc: usize) -> (w: bool)
    requires
        is_rect(g@, rows as int, cols as int),
        r < rows,
        c < cols,
        dr <= 2,
        dc <= 2,
    ensures
        w == wall_or_outside(cells(g@), rows as int, cols as int, r + dr - 1, c + dc - 1),
{
    if (dr == 0 && r == 0) || (dr == 2 && r + 1 == rows) || (dc == 0 && c == 0) || (dc == 2 && c + 1 == cols) {
        true
    } else {
        let nr = if dr == 0 { r - 1 } else if dr == 1 { r } else { r + 1 };
        let nc = if dc == 0 { c - 1 } else if dc == 1 { c } else { c + 1 };
        g[nr][nc]
    }
}

/// One smoothing pass over a `rows` by `cols` grid.
pub fn smooth_step(prev: &Vec<Vec<bool>>, rows: usize, cols: usize) -> (next: Vec<Vec<bool>>)
    requires
        is_rect(prev@, rows as int, cols as int),
    ensures
        is_rect(next@, rows as int, cols as int),
        cells(next@) == smoothed_once(cells(prev@), rows as int, cols as int),
{
    let ghost g = cells(prev@);
    let mut next: Vec<Vec<bool>> = Vec::new();
    let mut r: usize = 0;
    while r < rows
        invariant
            is_rect(prev@, rows as int, cols as int),
            g == cells(prev@),
            r <= rows,
            next@.len() == r,
            forall|i: int| 0 <= i < r ==> (#[trigger] next@[i])@ == Seq::new(
                cols as nat,
                |c: int| wall_neighbours(g, rows as int, cols as int, i, c) >= 5,
            ),
        decreases rows - r,
    {
        let mut row: Vec<bool> = Vec::new();
        let mut c: usize = 0;
        while c < cols
            invariant
                is_rect(prev@, rows as int, cols as int),
                g == cells(prev@),
                r < rows,
                c <= cols,
                row@.len() == c,
                forall|j: int| 0 <= j < c ==> #[trigger] row@[j] == (wall_neighbours(g, rows as int, cols as int, r as int, j) >= 5),
            decreases cols - c,
        {
            let mut wall_count: u32 = 0;
            let mut dr: usize = 0;
            while dr <= 2
                invariant
                    is_rect(prev@, rows as int, cols as int),
                    g == cells(prev@),
                    r < rows,
                    c < cols,
                    dr <= 3,
                    wall_count <= 3 * dr,
                    wall_count as int == partial_count(g, rows as int, cols as int, r as int, c as int, dr as int),
                decreases 3 - dr,
            {
                let mut dc: usize = 0;
                while dc <= 2
                    invariant
                        is_rect(prev@, rows as int, cols as int),
                        g == cells(prev@),
                        r < rows,
                        c < cols,
                        dr <= 2,
                        dc <= 3,
                        wall_count <= 3 * dr + dc,
                        wall_count as int == partial_count(g, rows as int, cols as int, r as int, c as int, dr as int)
                            + row_part(g, rows as int, cols as int, r as int, c as int, dr as int, dc as int),
                    decreases 3 - dc,
                {
                    if !(dr == 1 && dc == 1) {
                        if wall_or_outside_at(prev, rows, cols, r, c, dr, dc) {
                            wall_count = wall_count + 1;
                        }
                    }
                    dc = dc + 1;
                }
                dr = dr + 1;
            }
            proof {
                assert(partial_count(g, rows as int, cols as int, r as int, c as int, 3) == wall_neighbours(
                    g,
                    rows as int,
                    cols as int,
                    r as int,
                    c as int,
                )) by {
                    reveal_with_fuel(partial_count, 4);
                    reveal_with_fuel(row_part, 4);
                }
            }
            row.push(wall_count >= 5);
            c = c + 1;
        }
        proof {
            assert(row@ =~= Seq::new(cols as nat, |j: int| wall_neighbours(g, rows as int, cols as int, r as int, j) >= 5));
        }
        next.push(row);
        r = r + 1;
    }
    proof {
        assert(cells(next@) =~= smoothed_once(g, rows as int, cols as int));
    }
    next
}

/// Walls counted in the neighbour rows `r - 1 .. r - 1 + dr`.
spec fn partial_count(g: Seq<Seq<bool>>, rows: int, cols: int, r: int, c: int, dr: int) -> int
    decreases dr,
{
    if dr <= 0 {
        0
    } else {
        partial_count(g, rows, cols, r, c, dr - 1) + row_part(g, rows, cols, r, c, dr - 1, 3)
    }
}

/// Walls counted in neighbour row `r + dr - 1`, columns `c - 1 .. c - 1 + dc`,
/// leaving out the cell itself.
spec fn row_part(g: Seq<Seq<bool>>, rows: int, cols: int, r: int, c: int, dr: int, dc: int) -> int
    decreases dc,
{
    if dc <= 0 {
        0
    } else {
        row_part(g, rows, cols, r, c, dr, dc - 1) + if dr == 1 && dc - 1 == 1 {
            0
        } else {
            wall_count_term(g, rows, cols, r + dr - 1, c + dc - 2)
        }
    }
}

/// Runs `smooth_iters` smoothing passes over a `rows` by `cols` grid.
pub fn smooth_cave(grid: Vec<Vec<bool>>, rows: usize, cols: usize, smooth_iters: usize) -> (out: Vec<Vec<bool>>)
    requires
        is_rect(grid@, rows as int, cols as int),
    ensures
        is_rect(out@, rows as int, cols as int),
        cells(out@) == smoothed(cells(grid@), rows as int, cols as int, smooth_iters as nat),
{
    let mut current = grid;
    let mut i: usize = 0;
    while i < smooth_iters
        invariant
            i <= smooth_iters,
            is_rect(current@, rows as int, cols as int),
            cells(current@) == smoothed(cells(grid@), rows as int, cols as int, i as nat),
        decreases smooth_iters - i,
    {
        current = smooth_step(&current, rows, cols);
        i = i + 1;
    }
    current
}

/// A grid of walls only stays a grid of walls under smoothing.
pub proof fn lemma_smoothing_keeps_solid(g: Seq<Seq<bool>>, rows: int, cols: int, k: nat)
    requires
        rows >= 0,
        cols >= 0,
        g.len() == rows,
        forall|r: int| 0 <= r < rows ==> (#[trigger] g[r]).len() == cols,
        forall|r: int, c: int| 0 <= r < rows && 0 <= c < cols ==> #[trigger] g[r][c],
    ensures
        smoothed(g, rows, cols, k) == g,
    decreases k,
{
    if k > 0 {
        lemma_smoothing_keeps_solid(g, rows, cols, (k - 1) as nat);
        assert forall|a: int, b: int| #[trigger] wall_count_term(g, rows, cols, a, b) == 1 by {}
        assert forall|r: int| 0 <= r < rows implies #[trigger] smoothed_once(g, rows, cols)[r] =~= g[r] by {
            assert forall|c: int| 0 <= c < cols implies smoothed_once(g, rows, cols)[r][c] == g[r][c] by {
                assert(wall_neighbours(g, rows, cols, r, c) == 8);
            }
        }
        assert(smoothed_once(g, rows, cols) =~= g);
    }
}

/// After at least one pass, the four corner cells are walls: five of a
/// corner's neighbours lie outside the grid.
pub proof fn lemma_smoothing_walls_corners(g: Seq<Seq<bool>>, rows: int, cols: int, k: nat)
    requires
        rows >= 1,
        cols >= 1,
        k >= 1,
    ensures
        smoothed(g, rows, cols, k)[0][0],
        smoothed(g, rows, cols, k)[0][cols - 1],
        smoothed(g, rows, cols, k)[rows - 1][0],
        smoothed(g, rows, cols, k)[rows - 1][cols - 1],
{
    let h = smoothed(g, rows, cols, (k - 1) as nat);
    assert(smoothed(g, rows, cols, k) == smoothed_once(h, rows, cols));
}

/// Smoothing is monotone: a grid with walls wherever another one has walls
/// keeps that relation after any number of passes.
pub proof fn lemma_smoothing_monotone(g: Seq<Seq<bool>>, h: Seq<Seq<bool>>, rows: int, cols: int, k: nat)
    requires
        forall|r: int, c: int| 0 <= r < rows && 0 <= c < cols && #[trigger] g[r][c] ==> h[r][c],
    ensures
        forall|r: int, c: int|
            0 <= r < rows && 0 <= c < cols && #[trigger] smoothed(g, rows, cols, k)[r][c] ==> smoothed(h, rows, cols, k)[r][c],
    decreases k,
{
    if k > 0 {
        let gp = smoothed(g, rows, cols, (k - 1) as nat);
        let hp = smoothed(h, rows, cols, (k - 1) as nat);
        lemma_smoothing_monotone(g, h, rows, cols, (k - 1) as nat);
        assert forall|r: int, c: int|
            0 <= r < rows && 0 <= c < cols && #[trigger] smoothed(g, rows, cols, k)[r][c] implies smoothed(h, rows, cols, k)[r][c] by {
            assert forall|a: int, b: int| #[trigger] wall_count_term(gp, rows, cols, a, b) <= wall_count_term(hp, rows, cols, a, b) by {
                if 0 <= a < rows && 0 <= b < cols && gp[a][b] {
                    assert(hp[a][b]);
                }
            }
            assert(wall_neighbours(gp, rows, cols, r, c) <= wall_neighbours(hp, rows, cols, r, c));
        }
    }
}

/// Whether the cell at row `r`, column `c` reads as a wall: it lies beyond
/// the edge of the `rows` by `cols` grid or holds a wall.
pub open spec fn reads_wall(g: Seq<Seq<bool>>, rows: int, cols: int, r: int, c: int) -> bool {
    r < 0 || r >= rows || c < 0 || c >= cols || g[r][c]
}

/// The eight cells around `(r, c)`, clockwise from the north-west one, as
/// wall flags. The cell itself is not among them.
pub open spec fn ring_of_eight(g: Seq<Seq<bool>>, rows: int, cols: int, r: int, c: int) -> Seq<bool> {
    seq![
        reads_wall(g, rows, cols, r - 1, c - 1),
        reads_wall(g, rows, cols, r - 1, c),
        reads_wall(g, rows, cols, r - 1, c + 1),
        reads_wall(g, rows, cols, r, c + 1),
        reads_wall(g, rows, cols, r + 1, c + 1),
        reads_wall(g, rows, cols, r + 1, c),
        reads_wall(g, rows, cols, r + 1, c - 1),
        reads_wall(g, rows, cols, r, c - 1),
    ]
}

/// The smoothing rule: after one pass, a cell of the grid is a wall exactly
/// when at least five of the eight cells around it were walls or lay beyond
/// the edge.
pub proof fn lemma_smoothing_rule(g: Seq<Seq<bool>>, rows: int, cols: int, r: int, c: int)
    requires
        0 <= r < rows,
        0 <= c < cols,
    ensures
        smoothed_once(g, rows, cols).len() == rows,
        smoothed_once(g, rows, cols)[r].len() == cols,
        smoothed_once(g, rows, cols)[r][c] == (count_true(ring_of_eight(g, rows, cols, r, c)) >= 5),
{
    let s = ring_of_eight(g, rows, cols, r, c);
    reveal_with_fuel(count_true, 9);
    assert(s.drop_last().drop_last().drop_last().drop_last().drop_last().drop_last().drop_last().drop_last().len() == 0);
    assert(count_true(s) == (if s[0] { 1int } else { 0 }) + (if s[1] { 1int } else { 0 }) + (if s[2] { 1int } else { 0 }) + (if s[3] {
        1int
    } else {
        0
    }) + (if s[4] { 1int } else { 0 }) + (if s[5] { 1int } else { 0 }) + (if s[6] { 1int } else { 0 }) + (if s[7] { 1int } else { 0 }));
}

/// A cell's own value does not decide what it becomes: two grids that differ
/// at most in cell `(r, c)` smooth to the same value there.
pub proof fn lemma_smoothing_ignores_own_cell(g: Seq<Seq<bool>>, h: Seq<Seq<bool>>, rows: int, cols: int, r: int, c: int)
    requires
        0 <= r < rows,
        0 <= c < cols,
        forall|a: int, b: int| 0 <= a < rows && 0 <= b < cols && (a, b) != (r, c) ==> #[trigger] g[a][b] == h[a][b],
    ensures
        smoothed_once(g, rows, cols)[r][c] == smoothed_once(h, rows, cols)[r][c],
{
    lemma_smoothing_rule(g, rows, cols, r, c);
    lemma_smoothing_rule(h, rows, cols, r, c);
    assert(ring_of_eight(g, rows, cols, r, c) =~= ring_of_eight(h, rows, cols, r, c));
}

} // verus!
