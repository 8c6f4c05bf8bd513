//! Keeping one open region of a wall grid: every open region but the
//! largest is filled, so the open cells left form one connected piece.
use vstd::prelude::*;
use crate::connectivity::{flat_adjacent, flat_connected, grid_connected, has_open_cell, lemma_cell_coords, lemma_index_coords, open_at};
use crate::counting::{count_true, lemma_count_true_bound};
use crate::grid::{cell, connected, in_grid, is_open, is_rect, rows_cover};
use crate::regions::{is_region_labelling, lab, label_open_regions};

verus! {

/// Number of cells of a `rows` by `cols` grid of labels that carry label `k`.
pub open spec fn region_size(labels: Seq<Vec<i32>>, rows: int, cols: int, k: int) -> nat {
    count_true(Seq::new((rows * cols) as nat, |i: int| lab(labels, (i / cols, i % cols)) == k))
}

/// Region `best` is the first among the `n` regions with the most cells.
pub open spec fn is_largest_region(labels: Seq<Vec<i32>>, rows: int, cols: int, n: int, best: int) -> bool {
    &&& 0 <= best < n
    &&& forall|k: int| 0 <= k < n ==> #[trigger] region_size(labels, rows, cols, k) <= region_size(labels, rows, cols, best)
    &&& forall|k: int| 0 <= k < best ==> #[trigger] region_size(labels, rows, cols, k) < region_size(labels, rows, cols, best)
}

/// `out` is `g` (read as `cols` columns) with every open cell outside region
/// `best` of the labelling filled, where `best` is the largest of the `n`
/// regions; with no region, `out` is `g`.
pub open spec fn largest_kept(g: Seq<Vec<bool>>, cols: int, labels: Seq<Vec<i32>>, n: int, best: int, out: Seq<Vec<bool>>) -> bool {
    let rows = g.len() as int;
    &&& is_region_labelling(g, cols, labels, n)
    &&& n > 0 ==> is_largest_region(labels, rows, cols, n, best)
    &&& is_rect(out, rows, cols)
    &&& forall|x: (int, int)| in_grid(rows, cols, x) ==> #[trigger] out[x.0]@[x.1] == (cell(g, x) || (n > 0 && lab(labels, x) != best))
}

/// The cells of a `rows` by `cols` grid in row-major order.
pub open spec fn flatten(g: Seq<Vec<bool>>, rows: int, cols: int) -> Seq<bool> {
    Seq::new((rows * cols) as nat, |i: int| g[i / cols]@[i % cols])
}

/// Cells seen so far, in row-major order, that carry label `k`.
spec fn size_prefix(labels: Seq<Vec<i32>>, cols: int, k: int, i: nat) -> nat {
    count_true(Seq::new(i, |j: int| lab(labels, (j / cols, j % cols)) == k))
}

/// The number of cells of each of the `n` regions.
fn region_sizes(labels: &[Vec<i32>], rows: usize, cols: usize, n: usize) -> (sizes: Vec<usize>)
    requires
        labels@.len() == rows,
        cols > 0,
        rows * cols <= usize::MAX,
        forall|r: int| 0 <= r < rows ==> (#[trigger] labels@[r])@.len() == cols,
        forall|a: (int, int)| in_grid(rows as int, cols as int, a) ==> #[trigger] lab(labels@, a) < n,
    ensures
        sizes@.len() == n,
        forall|k: int| 0 <= k < n ==> #[trigger] sizes@[k] == region_size(labels@, rows as int, cols as int, k),
{
    let ghost l = labels@;
    let total = rows * cols;
    let mut sizes = vec![0usize; n];
    let mut i: usize = 0;
    proof {
        assert forall|k: int| 0 <= k < n implies #[trigger] sizes@[k] == size_prefix(l, cols as int, k, 0) by {
            assert(Seq::new(0, |j: int| lab(l, (j / cols as int, j % cols as int)) == k).len() == 0);
        }
    }
    while i < total
        invariant
            l == labels@,
            labels@.len() == rows,
            cols > 0,
            total == rows * cols,
            i <= total,
            forall|r: int| 0 <= r < rows ==> (#[trigger] labels@[r])@.len() == cols,
            forall|a: (int, int)| in_grid(rows as int, cols as int, a) ==> #[trigger] lab(l, a) < n,
            sizes@.len() == n,
            forall|k: int| 0 <= k < n ==> #[trigger] sizes@[k] == size_prefix(l, cols as int, k, i as nat),
        decreases total - i,
    {
        let r = i / cols;
        let c = i % cols;
        proof {
            assert(cols * rows == rows * cols) by (nonlinear_arith);
            lemma_cell_coords(i as int, cols as int, rows as int);
            assert(lab(l, (r as int, c as int)) < n);
        }
        let v = labels[r][c];
        let ghost s0 = sizes@;
        if v >= 0 {
            let vi = v as usize;
            proof {
                let f = |j: int| lab(l, (j / cols as int, j % cols as int)) == vi as int;
                lemma_count_true_bound(Seq::new(i as nat, f));
            }
            sizes.set(vi, sizes[vi] + 1);
        }
        proof {
            assert forall|k: int| 0 <= k < n implies #[trigger] sizes@[k] == size_prefix(l, cols as int, k, (i + 1) as nat) by {
                let f = |j: int| lab(l, (j / cols as int, j % cols as int)) == k;
                assert(Seq::new((i + 1) as nat, f).drop_last() =~= Seq::new(i as nat, f));
                assert(Seq::new((i + 1) as nat, f).last() == (lab(l, (r as int, c as int)) == k));
            }
        }
        i = i + 1;
    }
    proof {
        assert forall|k: int| 0 <= k < n implies #[trigger] sizes@[k] == region_size(labels@, rows as int, cols as int, k) by {
            assert(size_prefix(l, cols as int, k, total as nat) == region_size(l, rows as int, cols as int, k));
        }
    }
    sizes
}

/// The first index holding the largest of the sizes.
fn largest_index(sizes: &Vec<usize>) -> (best: usize)
    requires
        sizes@.len() > 0,
    ensures
        best < sizes@.len(),
        forall|k: int| 0 <= k < sizes@.len() ==> #[trigger] sizes@[k] <= sizes@[best as int],
        forall|k: int| 0 <= k < best ==> #[trigger] sizes@[k] < sizes@[best as int],
{
    let mut best: usize = 0;
    let mut k: usize = 1;
    while k < sizes.len()
        invariant
            1 <= k <= sizes@.len(),
            best < k,
            forall|j: int| 0 <= j < k ==> #[trigger] sizes@[j] <= sizes@[best as int],
            forall|j: int| 0 <= j < best ==> #[trigger] sizes@[j] < sizes@[best as int],
        decreases sizes@.len() - k,
    {
        if sizes[k] > sizes[best] {
            best = k;
        }
        k = k + 1;
    }
    best
}

/// A walk through open cells of a rectangular grid is, cell by cell, a
/// walk through the open entries of its row-major flattening.
proof fn lemma_flat_walk(o: Seq<Vec<bool>>, rows: int, cols: int, p: Seq<(int, int)>) -> (q: Seq<int>)
    requires
        is_rect(o, rows, cols),
        crate::grid::is_open_walk(o, cols, p),
    ensures
        q.len() == p.len(),
        forall|k: int| 0 <= k < q.len() ==> #[trigger] q[k] == p[k].0 * cols + p[k].1,
        crate::connectivity::is_open_walk(flatten(o, rows, cols), cols, cols * rows, q),
{
    let f = flatten(o, rows, cols);
    let q = Seq::new(p.len(), |k: int| p[k].0 * cols + p[k].1);
    assert forall|k: int| 0 <= k < q.len() implies open_at(f, #[trigger] q[k]) && q[k] < cols * rows by {
        assert(is_open(o, cols, p[k]));
        lemma_index_coords(p[k].0, p[k].1, cols, rows);
    }
    assert forall|k: int| 0 <= k < q.len() - 1 implies #[trigger] flat_adjacent(cols, cols * rows, q[k], q[k + 1]) by {
        let a = p[k];
        let b = p[k + 1];
        assert(crate::grid::adjacent(a, b));
        assert(is_open(o, cols, a) && is_open(o, cols, b));
        lemma_index_coords(a.0, a.1, cols, rows);
        lemma_index_coords(b.0, b.1, cols, rows);
        if a.0 == b.0 + 1 {
            assert(a.0 * cols == b.0 * cols + cols) by (nonlinear_arith)
                requires
                    a.0 == b.0 + 1,
            ;
        } else if b.0 == a.0 + 1 {
            assert(b.0 * cols == a.0 * cols + cols) by (nonlinear_arith)
                requires
                    b.0 == a.0 + 1,
            ;
        }
    }
    q
}

/// When every open cell of `o` reaches every other by an open walk, the
/// row-major flattening of `o` is connected in the sense of `grid_connected`.
proof fn lemma_flat_connected(o: Seq<Vec<bool>>, rows: int, cols: int)
    requires
        is_rect(o, rows, cols),
        forall|a: (int, int), b: (int, int)| is_open(o, cols, a) && is_open(o, cols, b) ==> #[trigger] connected(o, cols, a, b),
    ensures
        grid_connected(flatten(o, rows, cols), cols, rows),
{
    let f = flatten(o, rows, cols);
    if has_open_cell(f, cols, rows) {
        assert forall|i: int, j: int| open_at(f, i) && open_at(f, j) implies i < cols * rows && j < cols * rows
            && #[trigger] flat_connected(f, cols, cols * rows, i, j) by {
            assert(cols > 0) by {
                if cols <= 0 {
                    assert(rows * cols <= 0) by (nonlinear_arith)
                        requires
                            cols <= 0,
                            rows >= 0,
                    ;
                }
            }
            assert(cols * rows == rows * cols) by (nonlinear_arith);
            lemma_cell_coords(i, cols, rows);
            lemma_cell_coords(j, cols, rows);
            let a = (i / cols, i % cols);
            let b = (j / cols, j % cols);
            assert(is_open(o, cols, a) && is_open(o, cols, b));
            assert(connected(o, cols, a, b));
            let p = choose|p: Seq<(int, int)>| #[trigger] crate::grid::is_open_walk(o, cols, p) && p[0] == a && p.last() == b;
            let q = lemma_flat_walk(o, rows, cols, p);
            assert(q[0] == i);
            assert(q[q.len() - 1] == j);
        }
    }
}

/// Fills every open region of the grid except the largest one (the first
/// in scan order among equally large ones), so the open cells left are
/// connected. The grid is read as its row count by the width of its first row.
pub fn keep_largest_region(grid: &[Vec<bool>]) -> (out: Vec<Vec<bool>>)
    requires
        grid@.len() >= 1,
        rows_cover(grid@, grid@[0]@.len() as int),
        grid@.len() * grid@[0]@.len() <= i32::MAX,
    ensures
        exists|labels: Seq<Vec<i32>>, n: int, best: int|
            #[trigger] largest_kept(grid@, grid@[0]@.len() as int, labels, n, best, out@),
        grid_connected(flatten(out@, grid@.len() as int, grid@[0]@.len() as int), grid@[0]@.len() as int, grid@.len() as int),
{
    let ghost g = grid@;
    let rows = grid.len();
    let cols = grid[0].len();
    let ghost ri = rows as int;
    let ghost ci = cols as int;
    let (labels, n) = label_open_regions(grid);
    let ghost l = labels@;
    proof {
        assert forall|a: (int, int)| in_grid(ri, ci, a) implies #[trigger] lab(l, a) < n && (lab(l, a) == -1 || 0 <= lab(l, a)) by {
            if !cell(g, a) {
                assert(is_open(g, ci, a));
            }
        }
        if n > 0 {
            assert(crate::regions::label_used(g, ci, l, 0));
        }
    }
    let best: usize = if n > 0 {
        let sizes = region_sizes(&labels, rows, cols, n);
        let b = largest_index(&sizes);
        proof {
            assert forall|k: int| 0 <= k < n implies #[trigger] region_size(l, ri, ci, k) <= region_size(l, ri, ci, b as int) by {
                assert(sizes@[k] <= sizes@[b as int]);
            }
            assert forall|k: int| 0 <= k < b implies #[trigger] region_size(l, ri, ci, k) < region_size(l, ri, ci, b as int) by {
                assert(sizes@[k] < sizes@[b as int]);
            }
        }
        b
    } else {
        0
    };
    let mut out: Vec<Vec<bool>> = Vec::new();
    let mut r: usize = 0;
    while r < rows
        invariant
            g == grid@,
            l == labels@,
            rows == g.len(),
            cols == g[0]@.len(),
            ri == rows as int,
            ci == cols as int,
            rows_cover(g, ci),
            is_region_labelling(g, ci, l, n as int),
            n > 0 ==> is_largest_region(l, ri, ci, n as int, best as int),
            r <= rows,
            out@.len() == r,
            forall|i: int| 0 <= i < r ==> (#[trigger] out@[i])@.len() == cols,
            forall|x: (int, int)|
                in_grid(r as int, ci, x) ==> #[trigger] out@[x.0]@[x.1] == (cell(g, x) || (n > 0 && lab(l, x) != best as int)),
        decreases rows - r,
    {
        let mut row: Vec<bool> = Vec::new();
        let mut c: usize = 0;
        while c < cols
            invariant
                g == grid@,
                l == labels@,
                rows == g.len(),
                cols == g[0]@.len(),
                ci == cols as int,
                rows_cover(g, ci),
                is_region_labelling(g, ci, l, n as int),
                r < rows,
                c <= cols,
                row@.len() == c,
                forall|j: int| 0 <= j < c ==> #[trigger] row@[j] == (cell(g, (r as int, j)) || (n > 0 && lab(l, (r as int, j)) != best as int)),
            decreases cols - c,
        {
            proof {
                assert(cols <= g[r as int]@.len());
                assert(l[r as int]@.len() == cols);
            }
            let id = labels[r][c];
            let v = grid[r][c] || (n > 0 && !(id >= 0 && id as usize == best));
            row.push(v);
            c = c + 1;
        }
        out.push(row);
        proof {
            assert forall|x: (int, int)| in_grid(r as int + 1, ci, x) implies #[trigger] out@[x.0]@[x.1] == (cell(g, x) || (n > 0 && lab(
                l,
                x,
            ) != best as int)) by {
                if x.0 == r as int {
                    assert(out@[x.0]@ == row@);
                }
            }
        }
        r = r + 1;
    }
    proof {
        let o = out@;
        assert(is_rect(o, ri, ci));
        assert(largest_kept(g, ci, l, n as int, best as int, o));
        assert forall|a: (int, int), b: (int, int)| is_open(o, ci, a) && is_open(o, ci, b) implies #[trigger] connected(o, ci, a, b) by {
            lemma_kept_region_connected(g, ci, l, n as int, best as int, o, a, b);
        }
        lemma_flat_connected(o, ri, ci);
    }
    out
}

/// Two open cells of the result lie in the kept region, and the walk that
/// joins them in the original grid stays inside it.
proof fn lemma_kept_region_connected(
    g: Seq<Vec<bool>>,
    cols: int,
    labels: Seq<Vec<i32>>,
    n: int,
    best: int,
    o: Seq<Vec<bool>>,
    a: (int, int),
    b: (int, int),
)
    requires
        largest_kept(g, cols, labels, n, best, o),
        is_open(o, cols, a),
        is_open(o, cols, b),
    ensures
        connected(o, cols, a, b),
{
    let rows = g.len() as int;
    assert(o[a.0]@[a.1] == (cell(g, a) || (n > 0 && lab(labels, a) != best)));
    assert(o[b.0]@[b.1] == (cell(g, b) || (n > 0 && lab(labels, b) != best)));
    assert(is_open(g, cols, a) && is_open(g, cols, b));
    assert(lab(labels, a) == best);
    assert(lab(labels, b) == best);
    assert(connected(g, cols, a, b));
    let p = choose|p: Seq<(int, int)>| #[trigger] crate::grid::is_open_walk(g, cols, p) && p[0] == a && p.last() == b;
    let member = |x: (int, int)| lab(labels, x) == best;
    assert forall|x: (int, int), y: (int, int)|
        #[trigger] member(x) && is_open(g, cols, x) && crate::grid::adjacent(x, y) && is_open(g, cols, y) implies #[trigger] member(y) by {
        crate::grid::lemma_connected_refl(g, cols, x);
        crate::grid::lemma_connected_extend(g, cols, x, x, y);
    }
    assert forall|k: int| 0 <= k < p.len() implies is_open(o, cols, #[trigger] p[k]) by {
        crate::grid::lemma_closed_walk_prefix(g, cols, member, p, k);
        assert(is_open(g, cols, p[k]));
        assert(o[p[k].0]@[p[k].1] == (cell(g, p[k]) || (n > 0 && lab(labels, p[k]) != best)));
    }
    assert(crate::grid::is_open_walk(o, cols, p));
}

/// Entries among the first `c` of `row` equal to `k`.
pub open spec fn row_label_count(row: Seq<i32>, k: int, c: int) -> nat
    decreases c,
{
    if c <= 0 {
        0
    } else {
        row_label_count(row, k, c - 1) + if row[c - 1] == k {
            1nat
        } else {
            0nat
        }
    }
}

/// Cells carrying label `k` in the first `rows` rows, each read over its
/// first `cols` entries.
pub open spec fn label_count(labels: Seq<Vec<i32>>, k: int, rows: int, cols: int) -> nat
    decreases rows,
{
    if rows <= 0 {
        0
    } else {
        label_count(labels, k, rows - 1, cols) + row_label_count(labels[rows - 1]@, k, cols)
    }
}

/// Row-major flags of the first `m` cells: whether each carries label `k`.
spec fn label_flags(labels: Seq<Vec<i32>>, cols: int, k: int, m: nat) -> Seq<bool> {
    Seq::new(m, |i: int| lab(labels, (i / cols, i % cols)) == k)
}

proof fn lemma_label_flags_prefix(labels: Seq<Vec<i32>>, k: int, cols: int, r: int, c: int)
    requires
        cols > 0,
        r >= 0,
        0 <= c <= cols,
    ensures
        count_true(label_flags(labels, cols, k, (r * cols + c) as nat)) == label_count(labels, k, r, cols) + row_label_count(
            labels[r]@,
            k,
            c,
        ),
    decreases r, c,
{
    assert(r * cols >= 0) by (nonlinear_arith)
        requires
            r >= 0,
            cols > 0,
    ;
    let m = r * cols + c;
    if c > 0 {
        lemma_label_flags_prefix(labels, k, cols, r, c - 1);
        let s = label_flags(labels, cols, k, m as nat);
        assert(s.drop_last() =~= label_flags(labels, cols, k, (m - 1) as nat));
        vstd::arithmetic::div_mod::lemma_fundamental_div_mod_converse(m - 1, cols, r, c - 1);
        assert(s.last() == (lab(labels, (r, c - 1)) == k));
        assert(count_true(s) == count_true(s.drop_last()) + (if s.last() { 1nat } else { 0nat }));
        assert(row_label_count(labels[r]@, k, c) == row_label_count(labels[r]@, k, c - 1) + (if labels[r]@[c - 1] == k {
            1nat
        } else {
            0nat
        }));
        assert(count_true(label_flags(labels, cols, k, (m - 1) as nat)) == label_count(labels, k, r, cols) + row_label_count(labels[r]@, k, c - 1));
        assert(count_true(s) == label_count(labels, k, r, cols) + row_label_count(labels[r]@, k, c));
    } else if r > 0 {
        assert(m == (r - 1) * cols + cols) by (nonlinear_arith)
            requires
                m == r * cols + c,
                c == 0,
        ;
        lemma_label_flags_prefix(labels, k, cols, r - 1, cols);
        assert(label_count(labels, k, r, cols) == label_count(labels, k, r - 1, cols) + row_label_count(labels[r - 1]@, k, cols));
        assert(row_label_count(labels[r]@, k, c) == 0);
        assert(count_true(label_flags(labels, cols, k, m as nat)) == label_count(labels, k, r, cols));
    } else {
        assert(m == 0) by (nonlinear_arith)
            requires
                r == 0,
                c == 0,
                m == r * cols + c,
        ;
        assert(label_flags(labels, cols, k, 0) =~= Seq::<bool>::empty());
        assert(count_true(label_flags(labels, cols, k, 0)) == 0);
        assert(row_label_count(labels[r]@, k, c) == 0);
    }
}

proof fn lemma_label_count_no_columns(labels: Seq<Vec<i32>>, k: int, rows: int)
    ensures
        label_count(labels, k, rows, 0) == 0,
    decreases rows,
{
    if rows > 0 {
        lemma_label_count_no_columns(labels, k, rows - 1);
    }
}

/// The size of a region is its number of cells: counting, row by row, the
/// cells of the `rows` by `cols` grid that carry its label.
pub proof fn lemma_region_size_counts_cells(labels: Seq<Vec<i32>>, rows: int, cols: int, k: int)
    requires
        rows >= 0,
        cols >= 0,
    ensures
        region_size(labels, rows, cols, k) == label_count(labels, k, rows, cols),
{
    assert(Seq::new((rows * cols) as nat, |i: int| lab(labels, (i / cols, i % cols)) == k) =~= label_flags(
        labels,
        cols,
        k,
        (rows * cols) as nat,
    ));
    if cols == 0 {
        assert(rows * cols == 0);
        assert(label_flags(labels, cols, k, 0) =~= Seq::<bool>::empty());
        lemma_label_count_no_columns(labels, k, rows);
    } else {
        lemma_label_flags_prefix(labels, k, cols, rows, 0);
    }
}

/// The region that is kept has at least as many cells as any other region,
/// and strictly more than every region labelled before it.
pub proof fn lemma_kept_region_is_largest(
    g: Seq<Vec<bool>>,
    cols: int,
    labels: Seq<Vec<i32>>,
    n: int,
    best: int,
    out: Seq<Vec<bool>>,
)
    requires
        largest_kept(g, cols, labels, n, best, out),
        n > 0,
        cols >= 0,
    ensures
        forall|k: int| 0 <= k < n ==> #[trigger] label_count(labels, k, g.len() as int, cols) <= label_count(labels, best, g.len() as int, cols),
        forall|k: int| 0 <= k < best ==> #[trigger] label_count(labels, k, g.len() as int, cols) < label_count(labels, best, g.len() as int, cols),
{
    let rows = g.len() as int;
    lemma_region_size_counts_cells(labels, rows, cols, best);
    assert forall|k: int| 0 <= k < n implies #[trigger] label_count(labels, k, rows, cols) <= label_count(labels, best, rows, cols) by {
        lemma_region_size_counts_cells(labels, rows, cols, k);
        assert(region_size(labels, rows, cols, k) <= region_size(labels, rows, cols, best));
    }
    assert forall|k: int| 0 <= k < best implies #[trigger] label_count(labels, k, rows, cols) < label_count(labels, best, rows, cols) by {
        lemma_region_size_counts_cells(labels, rows, cols, k);
        assert(region_size(labels, rows, cols, k) < region_size(labels, rows, cols, best));
    }
}

} // verus!
