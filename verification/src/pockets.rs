//! Turning a segmented wall grid into solid obstacles: random points pick
//! enclosed pockets, which are filled (and optionally thickened) while every
//! other cell is cleared.
use rand::rngs::StdRng;
use vstd::prelude::*;
use crate::adjacency::{is_square, region_adjacency, regions_linked};
use crate::counting::{count_true, lemma_count_true_all_false, lemma_count_true_set};
use crate::connectivity::grid_connected;
use crate::grid::{in_grid, is_rect, label_rows_cover, rows_cover};
use crate::open_space::{flatten, keep_largest_region, largest_kept};
use crate::regions::{is_region_labelling, lab, label_open_regions, labels_rect};
use crate::rng::random_below;

verus! {

/// The cell lies on the outer edge of a `rows` by `cols` grid.
pub open spec fn on_border(rows: int, cols: int, a: (int, int)) -> bool {
    a.0 == 0 || a.1 == 0 || a.0 == rows - 1 || a.1 == cols - 1
}

/// Some cell of region `id` lies on the outer edge, so the region is not
/// enclosed.
pub open spec fn region_touches_border(labels: Seq<Vec<i32>>, rows: int, cols: int, id: int) -> bool {
    exists|a: (int, int)| in_grid(rows, cols, a) && on_border(rows, cols, a) && #[trigger] lab(labels, a) == id
}

/// Cell `a` belongs to a selected region.
pub open spec fn in_pocket(labels: Seq<Vec<i32>>, selected: Seq<bool>, a: (int, int)) -> bool {
    lab(labels, a) >= 0 && lab(labels, a) < selected.len() && selected[lab(labels, a) as int]
}

/// Chebyshev distance at most `n`.
pub open spec fn within(a: (int, int), b: (int, int), n: int) -> bool {
    a.0 - n <= b.0 <= a.0 + n && a.1 - n <= b.1 <= a.1 + n
}

/// Cell `x` lies within Chebyshev distance `n` of a cell of a selected region.
pub open spec fn near_pocket(labels: Seq<Vec<i32>>, rows: int, cols: int, selected: Seq<bool>, n: int, x: (int, int)) -> bool {
    exists|f: (int, int)| in_grid(rows, cols, f) && #[trigger] in_pocket(labels, selected, f) && within(f, x, n)
}

/// For each region below `n`, whether it reaches the outer edge.
fn border_regions(labels: &[Vec<i32>], rows: usize, cols: usize, n: usize) -> (touches: Vec<bool>)
    requires
        labels@.len() == rows,
        label_rows_cover(labels@, cols as int),
        n >= 1,
        forall|a: (int, int)| in_grid(rows as int, cols as int, a) ==> #[trigger] lab(labels@, a) < n,
    ensures
        touches@.len() == n,
        forall|id: int| 0 <= id < n ==> #[trigger] touches@[id] == region_touches_border(labels@, rows as int, cols as int, id),
{
    let ghost l = labels@;
    let mut touches = vec![false; n];
    let mut r: usize = 0;
    while r < rows
        invariant
            l == labels@,
            labels@.len() == rows,
            label_rows_cover(l, cols as int),
            forall|a: (int, int)| in_grid(rows as int, cols as int, a) ==> #[trigger] lab(l, a) < n,
            r <= rows,
            touches@.len() == n,
            forall|id: int| 0 <= id < n ==> #[trigger] touches@[id] == exists|a: (int, int)|
                in_grid(rows as int, cols as int, a) && a.0 < r && on_border(rows as int, cols as int, a) && #[trigger] lab(l, a) == id,
        decreases rows - r,
    {
        let mut c: usize = 0;
        while c < cols
            invariant
                l == labels@,
                labels@.len() == rows,
                label_rows_cover(l, cols as int),
                forall|a: (int, int)| in_grid(rows as int, cols as int, a) ==> #[trigger] lab(l, a) < n,
                r < rows,
                c <= cols,
                touches@.len() == n,
                forall|id: int| 0 <= id < n ==> #[trigger] touches@[id] == exists|a: (int, int)|
                    in_grid(rows as int, cols as int, a) && (a.0 < r || (a.0 == r && a.1 < c)) && on_border(rows as int, cols as int, a)
                        && #[trigger] lab(l, a) == id,
            decreases cols - c,
        {
            let ghost t0 = touches@;
            let id = labels[r][c];
            proof {
                assert(lab(l, (r as int, c as int)) < n);
            }
            if id >= 0 && (r == 0 || c == 0 || r == rows - 1 || c == cols - 1) {
                touches.set(id as usize, true);
            }
            proof {
                let here = (r as int, c as int);
                assert forall|k: int| 0 <= k < n implies #[trigger] touches@[k] == exists|a: (int, int)|
                    in_grid(rows as int, cols as int, a) && (a.0 < r || (a.0 == r && a.1 < c + 1)) && on_border(
                        rows as int,
                        cols as int,
                        a,
                    ) && #[trigger] lab(l, a) == k by {
                    if touches@[k] && !t0[k] {
                        assert(in_grid(rows as int, cols as int, here) && on_border(rows as int, cols as int, here) && lab(l, here) == k);
                    }
                    if exists|a: (int, int)|
                        in_grid(rows as int, cols as int, a) && (a.0 < r || (a.0 == r && a.1 < c + 1)) && on_border(
                            rows as int,
                            cols as int,
                            a,
                        ) && #[trigger] lab(l, a) == k {
                        let a = choose|a: (int, int)|
                            in_grid(rows as int, cols as int, a) && (a.0 < r || (a.0 == r && a.1 < c + 1)) && on_border(
                                rows as int,
                                cols as int,
                                a,
                            ) && #[trigger] lab(l, a) == k;
                        if a != here {
                            assert(in_grid(rows as int, cols as int, a) && (a.0 < r || (a.0 == r && a.1 < c)) && on_border(
                                rows as int,
                                cols as int,
                                a,
                            ) && lab(l, a) == k);
                        }
                    }
                }
            }
            c = c + 1;
        }
        proof {
            assert forall|k: int| 0 <= k < n implies #[trigger] touches@[k] == exists|a: (int, int)|
                in_grid(rows as int, cols as int, a) && a.0 < r + 1 && on_border(rows as int, cols as int, a) && #[trigger] lab(l, a) == k by {
                if exists|a: (int, int)|
                    in_grid(rows as int, cols as int, a) && a.0 < r + 1 && on_border(rows as int, cols as int, a) && #[trigger] lab(l, a) == k {
                    let a = choose|a: (int, int)|
                        in_grid(rows as int, cols as int, a) && a.0 < r + 1 && on_border(rows as int, cols as int, a) && #[trigger] lab(l, a) == k;
                    assert(in_grid(rows as int, cols as int, a) && (a.0 < r || (a.0 == r && a.1 < cols)) && on_border(
                        rows as int,
                        cols as int,
                        a,
                    ) && lab(l, a) == k);
                }
            }
        }
        r = r + 1;
    }
    touches
}

/// Considers one random point `(r, c)`: the region it lands in is picked
/// when it is a region (not a wall), enclosed, not picked yet and, when an
/// adjacency matrix is given, not adjacent to any picked region.
pub fn consider_point(
    labels: &[Vec<i32>],
    touches_border: &[bool],
    adjacency: &Option<Vec<Vec<bool>>>,
    selected: &mut Vec<bool>,
    selected_ids: &mut Vec<usize>,
    r: usize,
    c: usize,
) -> (picked: bool)
    requires
        r < labels@.len(),
        c < labels@[r as int]@.len(),
        lab(labels@, (r as int, c as int)) < touches_border@.len(),
        old(selected)@.len() == touches_border@.len(),
        adjacency matches Some(m) ==> is_square(m@, touches_border@.len() as int),
        forall|k: int| 0 <= k < old(selected_ids)@.len() ==> #[trigger] old(selected_ids)@[k] < touches_border@.len(),
    ensures
        ({
            let id = lab(labels@, (r as int, c as int));
            picked == (id >= 0 && !touches_border@[id as int] && !old(selected)@[id as int] && match adjacency {
                Some(m) => forall|k: int| 0 <= k < old(selected_ids)@.len() ==> !m@[id as int]@[#[trigger] old(selected_ids)@[k] as int],
                None => true,
            })
        }),
        picked ==> final(selected)@ == old(selected)@.update(lab(labels@, (r as int, c as int)) as int, true)
            && final(selected_ids)@ == old(selected_ids)@.push(lab(labels@, (r as int, c as int)) as usize),
        !picked ==> final(selected)@ == old(selected)@ && final(selected_ids)@ == old(selected_ids)@,
{
    let id = labels[r][c];
    if id < 0 {
        return false;
    }
    let id = id as usize;
    if touches_border[id] || selected[id] {
        return false;
    }
    match adjacency {
        Some(adj) => {
            let mut k: usize = 0;
            while k < selected_ids.len()
                invariant
                    k <= selected_ids@.len(),
                    is_square(adj@, touches_border@.len() as int),
                    id < touches_border@.len(),
                    id as int == lab(labels@, (r as int, c as int)) as int,
                    selected_ids@ == old(selected_ids)@,
                    selected@ == old(selected)@,
                    *adjacency == Some(*adj),
                    forall|j: int| 0 <= j < selected_ids@.len() ==> #[trigger] selected_ids@[j] < touches_border@.len(),
                    forall|j: int| 0 <= j < k ==> !adj@[id as int]@[#[trigger] selected_ids@[j] as int],
                decreases selected_ids@.len() - k,
            {
                if adj[id][selected_ids[k]] {
                    proof {
                        assert(id as int == lab(labels@, (r as int, c as int)) as int);
                        assert(adj@[id as int]@[selected_ids@[k as int] as int]);
                        assert(*adjacency == Some(*adj));
                        assert(old(selected_ids)@[k as int] == selected_ids@[k as int]);
                    }
                    return false;
                }
                k = k + 1;
            }
        },
        None => {},
    }
    selected.set(id, true);
    selected_ids.push(id);
    true
}

/// Whether some cell of a selected region lies within Chebyshev distance
/// `n` of `(r, c)`.
fn pocket_near(
    labels: &[Vec<i32>],
    selected: &[bool],
    rows: usize,
    cols: usize,
    r: usize,
    c: usize,
    n: usize,
) -> (near: bool)
    requires
        labels@.len() == rows,
        label_rows_cover(labels@, cols as int),
        r < rows,
        c < cols,
        rows + n <= usize::MAX,
        cols + n <= usize::MAX,
    ensures
        near == near_pocket(labels@, rows as int, cols as int, selected@, n as int, (r as int, c as int)),
{
    let ghost x = (r as int, c as int);
    let ghost l = labels@;
    let lo_r = if r >= n { r - n } else { 0 };
    let hi_r = if r + n < rows { r + n + 1 } else { rows };
    let lo_c = if c >= n { c - n } else { 0 };
    let hi_c = if c + n < cols { c + n + 1 } else { cols };
    let mut fr = lo_r;
    while fr < hi_r
        invariant
            l == labels@,
            labels@.len() == rows,
            label_rows_cover(l, cols as int),
            lo_r <= fr <= hi_r <= rows,
            lo_c <= hi_c <= cols,
            lo_r as int == if r >= n { r - n } else { 0 },
            hi_r as int == if r + n < rows { r + n + 1 } else { rows as int },
            lo_c as int == if c >= n { c - n } else { 0 },
            hi_c as int == if c + n < cols { c + n + 1 } else { cols as int },
            x == (r as int, c as int),
            forall|f: (int, int)|
                in_grid(rows as int, cols as int, f) && within(f, x, n as int) && f.0 < fr ==> !#[trigger] in_pocket(
                    l,
                    selected@,
                    f,
                ),
        decreases hi_r - fr,
    {
        let mut fc = lo_c;
        while fc < hi_c
            invariant
                l == labels@,
                labels@.len() == rows,
                label_rows_cover(l, cols as int),
                lo_r <= fr < hi_r <= rows,
                lo_c <= fc <= hi_c <= cols,
                lo_c as int == if c >= n { c - n } else { 0 },
                hi_c as int == if c + n < cols { c + n + 1 } else { cols as int },
                lo_r as int == if r >= n { r - n } else { 0 },
                hi_r as int == if r + n < rows { r + n + 1 } else { rows as int },
                x == (r as int, c as int),
                forall|f: (int, int)|
                    in_grid(rows as int, cols as int, f) && within(f, x, n as int) && (f.0 < fr || (f.0 == fr
                        && f.1 < fc)) ==> !#[trigger] in_pocket(l, selected@, f),
            decreases hi_c - fc,
        {
            let id = labels[fr][fc];
            if id >= 0 && (id as usize) < selected.len() && selected[id as usize] {
                proof {
                    let f = (fr as int, fc as int);
                    assert(in_grid(rows as int, cols as int, f) && in_pocket(l, selected@, f) && within(f, x, n as int));
                }
                return true;
            }
            fc = fc + 1;
        }
        fr = fr + 1;
    }
    false
}

/// The grid whose cells are set exactly within Chebyshev distance `border`
/// of a cell of a selected region (`border == 0`: the regions themselves).
pub fn fill_pockets(labels: &[Vec<i32>], selected: &[bool], border: usize) -> (grid: Vec<Vec<bool>>)
    requires
        labels@.len() >= 1,
        label_rows_cover(labels@, labels@[0]@.len() as int),
        labels@.len() + border <= usize::MAX,
        labels@[0]@.len() + border <= usize::MAX,
    ensures
        is_rect(grid@, labels@.len() as int, labels@[0]@.len() as int),
        forall|x: (int, int)|
            in_grid(labels@.len() as int, labels@[0]@.len() as int, x) ==> #[trigger] grid@[x.0]@[x.1]
                == near_pocket(labels@, labels@.len() as int, labels@[0]@.len() as int, selected@, border as int, x),
{
    let rows = labels.len();
    let cols = labels[0].len();
    let mut grid: Vec<Vec<bool>> = Vec::new();
    let mut r: usize = 0;
    while r < rows
        invariant
            rows == labels@.len(),
            cols == labels@[0]@.len(),
            label_rows_cover(labels@, cols as int),
            rows + border <= usize::MAX,
            cols + border <= usize::MAX,
            r <= rows,
            grid@.len() == r,
            forall|i: int| 0 <= i < r ==> (#[trigger] grid@[i])@.len() == cols,
            forall|x: (int, int)|
                in_grid(r as int, cols as int, x) ==> #[trigger] grid@[x.0]@[x.1] == near_pocket(
                    labels@,
                    rows as int,
                    cols as int,
                    selected@,
                    border as int,
                    x,
                ),
        decreases rows - r,
    {
        let mut row: Vec<bool> = Vec::new();
        let mut c: usize = 0;
        while c < cols
            invariant
                rows == labels@.len(),
                label_rows_cover(labels@, cols as int),
                rows + border <= usize::MAX,
                cols + border <= usize::MAX,
                r < rows,
                c <= cols,
                row@.len() == c,
                forall|j: int| 0 <= j < c ==> #[trigger] row@[j] == near_pocket(
                    labels@,
                    rows as int,
                    cols as int,
                    selected@,
                    border as int,
                    (r as int, j),
                ),
            decreases cols - c,
        {
            let v = pocket_near(labels, selected, rows, cols, r, c, border);
            row.push(v);
            c = c + 1;
        }
        grid.push(row);
        proof {
            assert forall|x: (int, int)| in_grid(r as int + 1, cols as int, x) implies #[trigger] grid@[x.0]@[x.1]
                == near_pocket(labels@, rows as int, cols as int, selected@, border as int, x) by {
                if x.0 == r as int {
                    assert(grid@[x.0]@ == row@);
                }
            }
        }
        r = r + 1;
    }
    grid
}

/// A point thrown at `p` keeps its region, given the regions kept so far
/// (`sel` as flags, `ids` in the order they were kept): the point lies in a
/// region, not a wall, that does not reach the outer edge and is not kept
/// yet, and, with a border, that is linked across at most `2 * border` walls
/// to no kept region.
pub open spec fn point_kept(
    labels: Seq<Vec<i32>>,
    rows: int,
    cols: int,
    border: int,
    sel: Seq<bool>,
    ids: Seq<usize>,
    p: (int, int),
) -> bool {
    let id = lab(labels, p) as int;
    &&& id >= 0
    &&& !region_touches_border(labels, rows, cols, id)
    &&& !sel[id]
    &&& border > 0 ==> forall|k: int|
        0 <= k < ids.len() ==> !regions_linked(labels, rows, cols, 2 * border, id, #[trigger] ids[k] as int) && !regions_linked(
            labels,
            rows,
            cols,
            2 * border,
            ids[k] as int,
            id,
        )
}

/// The regions kept after the points `pts` were thrown in turn, as flags
/// over `size` regions and as the list of kept regions in order.
pub open spec fn kept_after(
    labels: Seq<Vec<i32>>,
    rows: int,
    cols: int,
    border: int,
    size: nat,
    pts: Seq<(int, int)>,
) -> (Seq<bool>, Seq<usize>)
    decreases pts.len(),
{
    if pts.len() == 0 {
        (Seq::new(size, |i: int| false), Seq::empty())
    } else {
        let prev = kept_after(labels, rows, cols, border, size, pts.drop_last());
        let p = pts.last();
        if point_kept(labels, rows, cols, border, prev.0, prev.1, p) {
            (prev.0.update(lab(labels, p) as int, true), prev.1.push(lab(labels, p) as usize))
        } else {
            prev
        }
    }
}

/// The points thrown: each a cell of the grid, thrown while fewer than
/// `num_points` regions were kept, until `num_points` were kept or
/// `num_points * 200 + 500` points were thrown.
pub open spec fn throws_done(
    labels: Seq<Vec<i32>>,
    rows: int,
    cols: int,
    border: int,
    size: nat,
    num_points: int,
    pts: Seq<(int, int)>,
) -> bool {
    &&& forall|k: int| 0 <= k < pts.len() ==> in_grid(rows, cols, #[trigger] pts[k])
    &&& pts.len() <= num_points * 200 + 500
    &&& forall|k: int|
        0 <= k < pts.len() ==> (#[trigger] kept_after(labels, rows, cols, border, size, pts.take(k))).1.len() < num_points
    &&& pts.len() == num_points * 200 + 500 || kept_after(labels, rows, cols, border, size, pts).1.len() == num_points
}

/// What one run of pocket selection filled from the points `pts` it threw:
/// the regions those points keep, filled as `pockets_outcome` says.
pub open spec fn throws_outcome(
    wall_grid: Seq<Vec<bool>>,
    cols: int,
    num_points: int,
    border: int,
    labels: Seq<Vec<i32>>,
    n: int,
    pts: Seq<(int, int)>,
    grid: Seq<Vec<bool>>,
) -> bool {
    let rows = wall_grid.len() as int;
    let size = (if n > 0 { n } else { 1 }) as nat;
    &&& is_region_labelling(wall_grid, cols, labels, n)
    &&& throws_done(labels, rows, cols, border, size, num_points, pts)
    &&& pockets_outcome(wall_grid, cols, num_points, border, labels, n, kept_after(labels, rows, cols, border, size, pts).0, grid)
}

/// What one run of pocket selection filled, given the region labelling it
/// worked on and the regions it picked: `grid` is the dilation of the kept
/// regions, before any open space they cut off is closed.
pub open spec fn pockets_outcome(
    wall_grid: Seq<Vec<bool>>,
    cols: int,
    num_points: int,
    border: int,
    labels: Seq<Vec<i32>>,
    n: int,
    selected: Seq<bool>,
    grid: Seq<Vec<bool>>,
) -> bool {
    let rows = wall_grid.len() as int;
    &&& is_region_labelling(wall_grid, cols, labels, n)
    &&& selected.len() == if n > 0 { n } else { 1 }
    &&& forall|id: int| 0 <= id < selected.len() && #[trigger] selected[id] ==> id < n && !region_touches_border(labels, rows, cols, id)
    &&& count_true(selected) <= num_points
    &&& border > 0 ==> forall|i: int, j: int|
        0 <= i < selected.len() && 0 <= j < selected.len() && i != j && #[trigger] selected[i] && #[trigger] selected[j]
            ==> !regions_linked(labels, rows, cols, 2 * border, i, j)
    &&& is_rect(grid, rows, cols)
    &&& forall|x: (int, int)| in_grid(rows, cols, x) ==> #[trigger] grid[x.0]@[x.1] == near_pocket(labels, rows, cols, selected, border, x)
}

/// Throws up to `num_points` random points at the open regions of a wall
/// grid and keeps each enclosed region a point lands in (with a border,
/// only regions not adjacent to one already kept). The kept regions become
/// solid, grown by `border_thickness` cells; every other cell is cleared.
/// Open space that the filled regions cut off from the largest open area
/// (such as the inside of a ring-shaped region) is filled too, so the open
/// space left is fully connected. Which regions are kept depends only on the
/// points thrown, in order (see `throws_outcome`).
pub fn wfc_amended(
    wall_grid: &[Vec<bool>],
    num_points: usize,
    border_thickness: usize,
    rng: &mut StdRng,
) -> (grid: Vec<Vec<bool>>)
    requires
        wall_grid@.len() >= 1,
        rows_cover(wall_grid@, wall_grid@[0]@.len() as int),
        wall_grid@.len() * wall_grid@[0]@.len() <= i32::MAX,
        num_points == 0 || wall_grid@[0]@.len() >= 1,
        num_points * 200 + 500 <= usize::MAX,
        2 * border_thickness <= usize::MAX,
        wall_grid@.len() + border_thickness <= i32::MAX,
        wall_grid@[0]@.len() + border_thickness <= i32::MAX,
    ensures
        exists|labels: Seq<Vec<i32>>, n: int, pts: Seq<(int, int)>, filled: Seq<Vec<bool>>|
            #[trigger] throws_outcome(
                wall_grid@,
                wall_grid@[0]@.len() as int,
                num_points as int,
                border_thickness as int,
                labels,
                n,
                pts,
                filled,
            ) && exists|l2: Seq<Vec<i32>>, n2: int, best: int|
                #[trigger] largest_kept(filled, wall_grid@[0]@.len() as int, l2, n2, best, grid@),
        grid_connected(
            flatten(grid@, wall_grid@.len() as int, wall_grid@[0]@.len() as int),
            wall_grid@[0]@.len() as int,
            wall_grid@.len() as int,
        ),
        num_points == 0 ==> *final(rng) == *old(rng),
{
    let ghost g = wall_grid@;
    let rows = wall_grid.len();
    let cols = wall_grid[0].len();
    let ghost ri = rows as int;
    let ghost ci = cols as int;
    let (labels, num_regions) = label_open_regions(wall_grid);
    let nn = if num_regions > 1 { num_regions } else { 1 };
    proof {
        assert forall|a: (int, int)| in_grid(ri, ci, a) implies #[trigger] lab(labels@, a) < nn by {
            if !crate::grid::cell(g, a) {
                assert(crate::grid::is_open(g, ci, a));
            }
        }
        assert(label_rows_cover(labels@, ci));
        assert forall|a: (int, int)| in_grid(ri, ci, a) implies #[trigger] crate::adjacency::bridge_labels_below(
            labels@,
            ri,
            ci,
            2 * border_thickness as int,
            a,
            nn as int,
        ) by {
            assert forall|d: int, m: int|
                #[trigger] crate::adjacency::bridged(labels@, ri, ci, a, d, m, 2 * border_thickness as int) implies lab(labels@, a)
                    < nn && lab(labels@, crate::adjacency::step(a, d, m + 1)) < nn by {
                assert(in_grid(ri, ci, crate::adjacency::step(a, d, m + 1)));
            }
        }
    }
    let touches = border_regions(&labels, rows, cols, nn);
    let adjacency = if border_thickness > 0 {
        Some(region_adjacency(&labels, nn, 2 * border_thickness))
    } else {
        None
    };
    let mut selected = vec![false; nn];
    let mut selected_ids: Vec<usize> = Vec::new();
    let mut chosen: usize = 0;
    let mut attempts: usize = 0;
    let max_attempts = num_points * 200 + 500;
    let ghost bt = border_thickness as int;
    let ghost mut pts: Seq<(int, int)> = Seq::empty();
    proof {
        assert(labels@[0]@.len() == ci);
        assert(selected@ =~= Seq::new(nn as nat, |i: int| false));
        assert(kept_after(labels@, ri, ci, bt, nn as nat, pts) == (Seq::new(nn as nat, |i: int| false), Seq::<usize>::empty()));
        assert(selected_ids@ =~= Seq::<usize>::empty());
        lemma_count_true_all_false(nn as nat);
    }
    while chosen < num_points && attempts < max_attempts
        invariant
            labels@.len() == rows,
            label_rows_cover(labels@, ci),
            ci == cols as int,
            ri == rows as int,
            num_points == 0 || cols >= 1,
            rows >= 1,
            forall|a: (int, int)| in_grid(ri, ci, a) ==> #[trigger] lab(labels@, a) < nn,
            touches@.len() == nn,
            selected@.len() == nn,
            adjacency matches Some(m) ==> is_square(m@, nn as int) && forall|x: int, y: int|
                0 <= x < nn && 0 <= y < nn ==> #[trigger] m@[x]@[y] == m@[y]@[x],
            chosen <= num_points,
            chosen == selected_ids@.len(),
            chosen == count_true(selected@),
            forall|k: int| 0 <= k < selected_ids@.len() ==> #[trigger] selected_ids@[k] < nn && selected@[selected_ids@[k] as int],
            forall|id: int| 0 <= id < nn && #[trigger] selected@[id] ==> selected_ids@.contains(id as usize) && !touches@[id]
                && exists|a: (int, int)| in_grid(ri, ci, a) && #[trigger] lab(labels@, a) == id,
            adjacency matches Some(m) ==> forall|j: int, k: int|
                0 <= j < selected_ids@.len() && 0 <= k < selected_ids@.len() && j != k ==> !m@[#[trigger] selected_ids@[j] as int]@[#[trigger] selected_ids@[k] as int],
            forall|j: int, k: int|
                0 <= j < selected_ids@.len() && 0 <= k < selected_ids@.len() && j != k ==> #[trigger] selected_ids@[j] != #[trigger] selected_ids@[k],
            bt == border_thickness as int,
            max_attempts == num_points * 200 + 500,
            num_points == 0 ==> *rng == *old(rng),
            (adjacency is Some) == (border_thickness > 0),
            adjacency matches Some(m) ==> forall|x: int, y: int|
                0 <= x < nn && 0 <= y < nn ==> #[trigger] m@[x]@[y] == (regions_linked(labels@, ri, ci, 2 * bt, x, y)
                    || regions_linked(labels@, ri, ci, 2 * bt, y, x)),
            forall|id: int| 0 <= id < nn ==> #[trigger] touches@[id] == region_touches_border(labels@, ri, ci, id),
            pts.len() == attempts,
            attempts <= max_attempts,
            selected@ == kept_after(labels@, ri, ci, bt, nn as nat, pts).0,
            selected_ids@ == kept_after(labels@, ri, ci, bt, nn as nat, pts).1,
            forall|k: int| 0 <= k < pts.len() ==> in_grid(ri, ci, #[trigger] pts[k]),
            forall|k: int| 0 <= k < pts.len() ==> (#[trigger] kept_after(labels@, ri, ci, bt, nn as nat, pts.take(k))).1.len() < num_points,
        decreases max_attempts - attempts,
    {
        attempts = attempts + 1;
        let r = random_below(rng, 0, rows);
        let c = random_below(rng, 0, cols);
        let ghost s0 = selected@;
        let ghost ids0 = selected_ids@;
        let ghost pts0 = pts;
        proof {
            assert(lab(labels@, (r as int, c as int)) < nn);
        }
        let picked = consider_point(&labels, &touches, &adjacency, &mut selected, &mut selected_ids, r, c);
        proof {
            pts = pts0.push((r as int, c as int));
            let pnt = (r as int, c as int);
            let id = lab(labels@, pnt) as int;
            assert(pts.drop_last() =~= pts0);
            assert(pts.last() == pnt);
            assert(s0 == kept_after(labels@, ri, ci, bt, nn as nat, pts0).0);
            assert(picked == point_kept(labels@, ri, ci, bt, s0, ids0, pnt)) by {
                if id >= 0 && id < nn {
                    assert(touches@[id] == region_touches_border(labels@, ri, ci, id));
                }
                if bt > 0 && id >= 0 && id < nn {
                    let m = adjacency->0;
                    assert forall|k: int| 0 <= k < ids0.len() implies (!m@[id]@[#[trigger] ids0[k] as int] <==> (!regions_linked(
                        labels@,
                        ri,
                        ci,
                        2 * bt,
                        id,
                        ids0[k] as int,
                    ) && !regions_linked(labels@, ri, ci, 2 * bt, ids0[k] as int, id))) by {
                        assert(ids0[k] < nn);
                    }
                }
            }
            assert forall|k: int| 0 <= k < pts.len() implies in_grid(ri, ci, #[trigger] pts[k]) by {
                if k < pts0.len() {
                    assert(pts[k] == pts0[k]);
                }
            }
            assert forall|k: int| 0 <= k < pts.len() implies (#[trigger] kept_after(
                labels@,
                ri,
                ci,
                bt,
                nn as nat,
                pts.take(k),
            )).1.len() < num_points by {
                if k < pts0.len() {
                    assert(pts.take(k) =~= pts0.take(k));
                } else {
                    assert(pts.take(k) =~= pts0);
                }
            }
        }
        if picked {
            proof {
                let id = lab(labels@, (r as int, c as int)) as int;
                lemma_count_true_set(s0, id);
                assert(selected_ids@.last() == id as usize);
                assert forall|i: int| 0 <= i < nn && #[trigger] selected@[i] implies selected_ids@.contains(i as usize)
                    && !touches@[i] && exists|a: (int, int)| in_grid(ri, ci, a) && #[trigger] lab(labels@, a) == i by {
                    if i == id {
                        assert(selected_ids@[selected_ids@.len() - 1] == i as usize);
                        assert(in_grid(ri, ci, (r as int, c as int)));
                    } else {
                        assert(s0[i]);
                        let k = choose|k: int| 0 <= k < ids0.len() && ids0[k] == i as usize;
                        assert(selected_ids@[k] == i as usize);
                    }
                }
                assert forall|j: int, k: int|
                    0 <= j < selected_ids@.len() && 0 <= k < selected_ids@.len() && j != k implies #[trigger] selected_ids@[j]
                    != #[trigger] selected_ids@[k] by {
                    if j == ids0.len() as int {
                        assert(s0[ids0[k] as int]);
                    } else if k == ids0.len() as int {
                        assert(s0[ids0[j] as int]);
                    } else {
                        assert(selected_ids@[j] == ids0[j] && selected_ids@[k] == ids0[k]);
                    }
                }
                match &adjacency {
                    Some(m) => {
                        assert forall|j: int, k: int|
                            0 <= j < selected_ids@.len() && 0 <= k < selected_ids@.len() && j != k implies !m@[#[trigger] selected_ids@[j] as int]@[#[trigger] selected_ids@[k] as int] by {
                            if j == ids0.len() as int {
                                assert(!m@[id]@[ids0[k] as int]);
                            } else if k == ids0.len() as int {
                                assert(!m@[id]@[ids0[j] as int]);
                                assert(m@[id]@[ids0[j] as int] == m@[ids0[j] as int]@[id]);
                            } else {
                                assert(selected_ids@[j] == ids0[j] && selected_ids@[k] == ids0[k]);
                            }
                        }
                    },
                    None => {},
                }
            }
            chosen = chosen + 1;
        }
    }
    let filled = fill_pockets(&labels, &selected, border_thickness);
    proof {
        let n = num_regions as int;
        let sel = selected@;
        assert forall|id: int| 0 <= id < sel.len() && #[trigger] sel[id] implies id < n && !region_touches_border(
            labels@,
            ri,
            ci,
            id,
        ) by {
            let a = choose|a: (int, int)| in_grid(ri, ci, a) && #[trigger] lab(labels@, a) == id;
            if !crate::grid::cell(g, a) {
                assert(crate::grid::is_open(g, ci, a));
            }
            assert(!touches@[id]);
        }
        if border_thickness > 0 {
            assert forall|i: int, j: int|
                0 <= i < sel.len() && 0 <= j < sel.len() && i != j && #[trigger] sel[i] && #[trigger] sel[j]
                    implies !regions_linked(labels@, ri, ci, 2 * border_thickness as int, i, j) by {
                let ki = choose|k: int| 0 <= k < selected_ids@.len() && selected_ids@[k] == i as usize;
                let kj = choose|k: int| 0 <= k < selected_ids@.len() && selected_ids@[k] == j as usize;
                match &adjacency {
                    Some(m) => {
                        assert(!m@[selected_ids@[ki] as int]@[selected_ids@[kj] as int]);
                    },
                    None => {},
                }
            }
        }
        assert(pockets_outcome(g, ci, num_points as int, border_thickness as int, labels@, n, sel, filled@));
        assert(throws_done(labels@, ri, ci, bt, nn as nat, num_points as int, pts));
        assert(throws_outcome(g, ci, num_points as int, bt, labels@, n, pts, filled@));
        assert(filled@[0]@.len() == ci);
    }
    let grid = keep_largest_region(&filled);
    proof {
        assert(throws_outcome(g, ci, num_points as int, bt, labels@, num_regions as int, pts, filled@) && exists|l2: Seq<
            Vec<i32>,
        >, n2: int, best: int| #[trigger] largest_kept(filled@, ci, l2, n2, best, grid@));
    }
    grid
}

/// A kept region never reaches the outer edge: every cell of a selected
/// region lies strictly inside the grid, off the first and last row and the
/// first and last column.
pub proof fn lemma_kept_regions_stay_off_edges(
    wall_grid: Seq<Vec<bool>>,
    cols: int,
    num_points: int,
    border: int,
    labels: Seq<Vec<i32>>,
    n: int,
    selected: Seq<bool>,
    grid: Seq<Vec<bool>>,
)
    requires
        pockets_outcome(wall_grid, cols, num_points, border, labels, n, selected, grid),
    ensures
        forall|a: (int, int)|
            0 <= a.0 < wall_grid.len() && 0 <= a.1 < cols && 0 <= #[trigger] lab(labels, a) < selected.len() && selected[lab(
                labels,
                a,
            ) as int] ==> 1 <= a.0 < wall_grid.len() - 1 && 1 <= a.1 < cols - 1,
{
    let rows = wall_grid.len() as int;
    assert forall|a: (int, int)|
        0 <= a.0 < rows && 0 <= a.1 < cols && 0 <= #[trigger] lab(labels, a) < selected.len() && selected[lab(labels, a) as int]
            implies 1 <= a.0 < rows - 1 && 1 <= a.1 < cols - 1 by {
        let id = lab(labels, a) as int;
        assert(!region_touches_border(labels, rows, cols, id));
        assert(in_grid(rows, cols, a));
    }
}

/// What `wfc_amended` keeps never reaches the outer edge: for the points it
/// threw, every cell of a region they keep lies off the first and last row
/// and the first and last column.
pub proof fn lemma_thrown_points_keep_inner_regions(
    wall_grid: Seq<Vec<bool>>,
    cols: int,
    num_points: int,
    border: int,
    labels: Seq<Vec<i32>>,
    n: int,
    pts: Seq<(int, int)>,
    filled: Seq<Vec<bool>>,
)
    requires
        throws_outcome(wall_grid, cols, num_points, border, labels, n, pts, filled),
    ensures
        ({
            let sel = kept_after(labels, wall_grid.len() as int, cols, border, (if n > 0 { n } else { 1 }) as nat, pts).0;
            forall|a: (int, int)|
                0 <= a.0 < wall_grid.len() && 0 <= a.1 < cols && 0 <= #[trigger] lab(labels, a) < sel.len() && sel[lab(labels, a) as int]
                    ==> 1 <= a.0 < wall_grid.len() - 1 && 1 <= a.1 < cols - 1
        }),
{
    let sel = kept_after(labels, wall_grid.len() as int, cols, border, (if n > 0 { n } else { 1 }) as nat, pts).0;
    lemma_kept_regions_stay_off_edges(wall_grid, cols, num_points, border, labels, n, sel, filled);
}

/// Without a border, exactly the cells of the selected regions are filled.
pub proof fn lemma_no_border_fills_exactly_pockets(
    labels: Seq<Vec<i32>>,
    rows: int,
    cols: int,
    selected: Seq<bool>,
    x: (int, int),
)
    requires
        in_grid(rows, cols, x),
    ensures
        near_pocket(labels, rows, cols, selected, 0, x) == in_pocket(labels, selected, x),
{
    if in_pocket(labels, selected, x) {
        assert(within(x, x, 0));
    }
    if near_pocket(labels, rows, cols, selected, 0, x) {
        let f = choose|f: (int, int)| in_grid(rows, cols, f) && #[trigger] in_pocket(labels, selected, f) && within(f, x, 0);
        assert(f == x);
    }
}

} // verus!
