//! Binary space partitioning into rooms joined by L-shaped corridors. The
//! recursion runs as an explicit stack of frames; room sizes, which are
//! scaled by a random real ratio, come from the caller.
use rand::rngs::StdRng;
use vstd::prelude::*;
use crate::grid::{in_grid, is_rect, rows_cover};
use crate::rng::random_between;

verus! {

pub open spec fn min_int(a: int, b: int) -> int {
    if a <= b {
        a
    } else {
        b
    }
}

pub open spec fn max_int(a: int, b: int) -> int {
    if a >= b {
        a
    } else {
        b
    }
}

/// Cell `a` lies on the corridor from `(x1, y1)` to `(x2, y2)`: a band
/// `width` rows tall from row `y1` spanning the columns between `x1` and
/// `x2`, then a band `width` columns wide from column `x2` spanning the
/// rows between `y1` and `y2`.
pub open spec fn on_corridor(x1: int, y1: int, x2: int, y2: int, width: int, a: (int, int)) -> bool {
    ||| (min_int(x1, x2) <= a.1 <= max_int(x1, x2) && y1 <= a.0 < y1 + width)
    ||| (min_int(y1, y2) <= a.0 <= max_int(y1, y2) && x2 <= a.1 < x2 + width)
}

/// What a corridor covers: with a width of at least 1 it runs along row
/// `y1` through every column between `x1` and `x2`, then along column `x2`
/// through every row between `y1` and `y2`; and it never leaves the box
/// spanned by its two ends, widened by `width` to the south and east.
pub proof fn lemma_corridor_shape(x1: int, y1: int, x2: int, y2: int, width: int)
    ensures
        width >= 1 ==> forall|c: int|
            (x1 <= c <= x2 || x2 <= c <= x1) ==> #[trigger] on_corridor(x1, y1, x2, y2, width, (y1, c)),
        width >= 1 ==> forall|r: int|
            (y1 <= r <= y2 || y2 <= r <= y1) ==> #[trigger] on_corridor(x1, y1, x2, y2, width, (r, x2)),
        forall|a: (int, int)|
            #[trigger] on_corridor(x1, y1, x2, y2, width, a) ==> (if y1 <= y2 { y1 } else { y2 }) <= a.0 < (if y1 <= y2 {
                y2
            } else {
                y1
            }) + width && (if x1 <= x2 { x1 } else { x2 }) <= a.1 < (if x1 <= x2 { x2 } else { x1 }) + width,
        forall|a: (int, int)| #[trigger] on_corridor(x1, y1, x2, y2, width, a) ==> width >= 1,
{
}

/// Same number of rows, each as long as before.
pub open spec fn same_shape(g: Seq<Vec<bool>>, h: Seq<Vec<bool>>) -> bool {
    g.len() == h.len() && forall|r: int| 0 <= r < g.len() ==> (#[trigger] g[r])@.len() == h[r]@.len()
}

/// Cell `a` exists in the (possibly ragged) grid `g`.
pub open spec fn has_cell(g: Seq<Vec<bool>>, a: (int, int)) -> bool {
    0 <= a.0 < g.len() && 0 <= a.1 < g[a.0]@.len()
}

/// Clears the corridor from `(x1, y1)` to `(x2, y2)`, clipped to the grid,
/// whose width is that of its first row.
pub fn carve_corridor(grid: &mut Vec<Vec<bool>>, x1: usize, y1: usize, x2: usize, y2: usize, width: usize)
    requires
        old(grid)@.len() >= 1,
        old(grid)@[0]@.len() >= 1,
        rows_cover(old(grid)@, old(grid)@[0]@.len() as int),
        y1 + width <= usize::MAX + 1,
        x2 + width <= usize::MAX + 1,
    ensures
        same_shape(final(grid)@, old(grid)@),
        forall|a: (int, int)|
            has_cell(old(grid)@, a) ==> #[trigger] final(grid)@[a.0]@[a.1] == (old(grid)@[a.0]@[a.1] && !(a.1
                < old(grid)@[0]@.len() && on_corridor(x1 as int, y1 as int, x2 as int, y2 as int, width as int, a))),
{
    let ghost g0 = grid@;
    let grid_h = grid.len();
    let grid_w = grid[0].len();
    let ghost h = grid_h as int;
    let ghost w = grid_w as int;
    let sx = if x1 <= x2 { x1 } else { x2 };
    let ex = if x1 <= x2 { x2 } else { x1 };
    let ex_c = if ex <= grid_w - 1 { ex } else { grid_w - 1 };
    let mut col = sx;
    while col <= ex_c
        invariant
            same_shape(grid@, g0),
            rows_cover(g0, w),
            grid_h == h,
            grid_w == w,
            h == g0.len(),
            w >= 1,
            sx as int == min_int(x1 as int, x2 as int),
            ex_c as int == min_int(max_int(x1 as int, x2 as int), w - 1),
            sx <= col,
            col <= if sx <= ex_c + 1 { ex_c + 1 } else { sx as int },
            y1 + width <= usize::MAX + 1,
            forall|a: (int, int)|
                has_cell(g0, a) ==> #[trigger] grid@[a.0]@[a.1] == (g0[a.0]@[a.1] && !(sx <= a.1 < col && y1 <= a.0 < y1 + width)),
        decreases ex_c + 1 - col,
    {
        let mut dw: usize = 0;
        while dw < width
            invariant
                same_shape(grid@, g0),
                rows_cover(g0, w),
                grid_h == h,
                grid_w == w,
                h == g0.len(),
                sx <= col <= ex_c,
                ex_c < w,
                dw <= width,
                y1 + width <= usize::MAX + 1,
                forall|a: (int, int)|
                    has_cell(g0, a) ==> #[trigger] grid@[a.0]@[a.1] == (g0[a.0]@[a.1] && !(sx <= a.1 < col && y1 <= a.0 < y1 + width)
                        && !(a.1 == col && y1 <= a.0 < y1 + dw)),
            decreases width - dw,
        {
            let row = y1 + dw;
            if row < grid_h {
                let ghost before = grid@;
                proof {
                    assert(col < g0[row as int]@.len());
                }
                grid[row].set(col, false);
                proof {
                    assert forall|r: int| 0 <= r < grid@.len() implies (#[trigger] grid@[r])@.len() == g0[r]@.len() by {
                        assert(before[r]@.len() == g0[r]@.len());
                    }
                    assert forall|a: (int, int)| has_cell(g0, a) implies #[trigger] grid@[a.0]@[a.1] == (g0[a.0]@[a.1] && !(sx
                        <= a.1 < col && y1 <= a.0 < y1 + width) && !(a.1 == col && y1 <= a.0 < y1 + dw + 1)) by {
                        assert(grid@[a.0]@[a.1] == if a == (row as int, col as int) { false } else { before[a.0]@[a.1] });
                    }
                }
            }
            dw = dw + 1;
        }
        col = col + 1;
    }
    let ghost g1 = grid@;
    let sy = if y1 <= y2 { y1 } else { y2 };
    let ey = if y1 <= y2 { y2 } else { y1 };
    let ey_c = if ey <= grid_h - 1 { ey } else { grid_h - 1 };
    let mut row = sy;
    while row <= ey_c
        invariant
            same_shape(grid@, g0),
            same_shape(g1, g0),
            rows_cover(g0, w),
            grid_h == h,
            grid_w == w,
            h == g1.len(),
            h >= 1,
            sy as int == min_int(y1 as int, y2 as int),
            ey_c as int == min_int(max_int(y1 as int, y2 as int), h - 1),
            sy <= row,
            row <= if sy <= ey_c + 1 { ey_c + 1 } else { sy as int },
            x2 + width <= usize::MAX + 1,
            forall|a: (int, int)|
                has_cell(g0, a) ==> #[trigger] grid@[a.0]@[a.1] == (g1[a.0]@[a.1] && !(sy <= a.0 < row && x2 <= a.1 < x2 + width
                    && a.1 < w)),
        decreases ey_c + 1 - row,
    {
        let mut dw: usize = 0;
        while dw < width
            invariant
                same_shape(grid@, g0),
                same_shape(g1, g0),
                rows_cover(g0, w),
                grid_h == h,
                grid_w == w,
                h == g1.len(),
                sy <= row <= ey_c,
                ey_c < h,
                dw <= width,
                x2 + width <= usize::MAX + 1,
                forall|a: (int, int)|
                    has_cell(g0, a) ==> #[trigger] grid@[a.0]@[a.1] == (g1[a.0]@[a.1] && !(sy <= a.0 < row && x2 <= a.1 < x2
                        + width && a.1 < w) && !(a.0 == row && x2 <= a.1 < x2 + dw && a.1 < w)),
            decreases width - dw,
        {
            let col = x2 + dw;
            if col < grid_w {
                let ghost before = grid@;
                proof {
                    assert(col < g0[row as int]@.len());
                }
                grid[row].set(col, false);
                proof {
                    assert forall|r: int| 0 <= r < grid@.len() implies (#[trigger] grid@[r])@.len() == g0[r]@.len() by {
                        assert(before[r]@.len() == g0[r]@.len());
                    }
                    assert forall|a: (int, int)| has_cell(g0, a) implies #[trigger] grid@[a.0]@[a.1] == (g1[a.0]@[a.1] && !(sy
                        <= a.0 < row && x2 <= a.1 < x2 + width && a.1 < w) && !(a.0 == row && x2 <= a.1 < x2 + dw + 1 && a.1 < w)) by {
                        assert(grid@[a.0]@[a.1] == if a == (row as int, col as int) { false } else { before[a.0]@[a.1] });
                    }
                }
            }
            dw = dw + 1;
        }
        row = row + 1;
    }
    proof {
        assert forall|a: (int, int)| has_cell(g0, a) implies #[trigger] grid@[a.0]@[a.1] == (g0[a.0]@[a.1] && !(a.1 < w
            && on_corridor(x1 as int, y1 as int, x2 as int, y2 as int, width as int, a))) by {
            assert(g1[a.0]@[a.1] == (g0[a.0]@[a.1] && !(sx <= a.1 <= ex_c && y1 <= a.0 < y1 + width)));
            assert(grid@[a.0]@[a.1] == (g1[a.0]@[a.1] && !(sy <= a.0 <= ey_c && x2 <= a.1 < x2 + width && a.1 < w)));
        }
    }
}

/// A pending piece of the partition: a region still to visit, a region
/// whose first half is done (its centre is the last one recorded), or a
/// region whose two halves are done and must be joined.
#[derive(Clone, Copy)]
pub enum BspFrame {
    Visit { x: usize, y: usize, w: usize, h: usize, depth: usize },
    AfterFirst { x: usize, y: usize, w: usize, h: usize, depth: usize, split_at: usize },
    AfterSecond,
}

/// What the caller must do next.
pub enum BspStep {
    /// Size a room for a leaf region of this width and height and pass the
    /// raw sizes to `place_room`.
    Room(usize, usize),
    /// Call `step` again.
    Working,
    /// The partition is complete.
    Finished,
}

/// The grid being carved, the stack of pending frames and the centres of
/// finished regions.
pub struct BspBuilder {
    pub grid: Vec<Vec<bool>>,
    pub rows: usize,
    pub cols: usize,
    pub max_depth: usize,
    pub corridor_width: usize,
    pub frames: Vec<BspFrame>,
    pub centers: Vec<(usize, usize)>,
}

/// A region this deep, or this small, gets a room instead of a split.
pub open spec fn is_leaf(w: int, h: int, depth: int, max_depth: int) -> bool {
    depth >= max_depth || w < 8 || h < 8
}

/// Smallest split position of a side of length `s`.
pub open spec fn split_lo(s: int) -> int {
    max_int(s / 3, 1)
}

/// Largest split position of a side of length `s`.
pub open spec fn split_hi(s: int) -> int {
    max_int(2 * s / 3, split_lo(s))
}

/// `s - t`, or 0 when `t` exceeds `s`.
pub open spec fn sat_sub(s: int, t: int) -> int {
    if s >= t {
        s - t
    } else {
        0
    }
}

/// The room side for a region side `s` and raw size `raw`: `raw` clamped
/// to `2 ..= max(s - 2, 2)`.
pub open spec fn room_side(raw: int, s: int) -> int {
    let hi = max_int(sat_sub(s, 2), 2);
    if raw < 2 {
        2
    } else if raw > hi {
        hi
    } else {
        raw
    }
}

/// Largest offset of a room of side `r` inside a region side `s`.
pub open spec fn offset_hi(s: int, r: int) -> int {
    max_int(sat_sub(s, r + 1), 1)
}

/// Centres recorded per frame below the top one.
pub open spec fn waiting(f: BspFrame) -> int {
    match f {
        BspFrame::AfterSecond => 1,
        _ => 0,
    }
}

/// Centres recorded for the top frame.
pub open spec fn ready(f: BspFrame) -> int {
    match f {
        BspFrame::Visit { .. } => 0,
        BspFrame::AfterFirst { .. } => 1,
        BspFrame::AfterSecond => 2,
    }
}

pub open spec fn sum_waiting(frames: Seq<BspFrame>) -> int
    decreases frames.len(),
{
    if frames.len() == 0 {
        0
    } else {
        sum_waiting(frames.drop_last()) + waiting(frames.last())
    }
}

/// Number of centres the stack `frames` has recorded.
pub open spec fn expected_centers(frames: Seq<BspFrame>) -> int {
    if frames.len() == 0 {
        1
    } else {
        sum_waiting(frames.drop_last()) + ready(frames.last())
    }
}

impl BspBuilder {
    /// Bounds on a frame.
    pub open spec fn frame_ok(&self, f: BspFrame) -> bool {
        match f {
            BspFrame::Visit { x, y, w, h, depth } => x < self.cols && y < self.rows && w <= max_int(self.cols as int, 4) && h
                <= max_int(self.rows as int, 4) && depth <= self.max_depth,
            BspFrame::AfterFirst { x, y, w, h, depth, split_at } => x < self.cols && y < self.rows && w <= max_int(
                self.cols as int,
                4,
            ) && h <= max_int(self.rows as int, 4) && depth < self.max_depth && split_at <= (if w >= h { w } else { h }),
            BspFrame::AfterSecond => true,
        }
    }

    pub open spec fn wf(&self) -> bool {
        &&& is_rect(self.grid@, self.rows as int, self.cols as int)
        &&& self.rows >= 1
        &&& self.cols >= 1
        &&& self.cols * 4 + 16 <= usize::MAX
        &&& self.rows * 4 + 16 <= usize::MAX
        &&& self.corridor_width + self.rows + self.cols <= usize::MAX
        &&& forall|i: int| 0 <= i < self.frames@.len() ==> self.frame_ok(#[trigger] self.frames@[i])
        &&& forall|i: int| 0 <= i < self.frames@.len() - 1 ==> !((#[trigger] self.frames@[i]) is Visit)
        &&& self.centers@.len() == expected_centers(self.frames@)
        &&& forall|i: int| 0 <= i < self.centers@.len() ==> (#[trigger] self.centers@[i]).0 < self.cols && self.centers@[i].1 < self.rows
    }

    /// On a grid of at least two rows and two columns: the top row and the
    /// left column are wall, and every recorded centre lies off them.
    pub open spec fn border_walls(&self) -> bool {
        self.rows >= 2 && self.cols >= 2 ==> {
            &&& forall|c: int| 0 <= c < self.cols ==> #[trigger] self.grid@[0]@[c]
            &&& forall|r: int| 0 <= r < self.rows ==> #[trigger] self.grid@[r]@[0]
            &&& forall|i: int| 0 <= i < self.centers@.len() ==> (#[trigger] self.centers@[i]).0 >= 1 && self.centers@[i].1 >= 1
        }
    }

    /// Same grid size and parameters.
    pub open spec fn same_setup(&self, other: BspBuilder) -> bool {
        &&& self.rows == other.rows
        &&& self.cols == other.cols
        &&& self.max_depth == other.max_depth
        &&& self.corridor_width == other.corridor_width
    }

    /// A solid `rows` by `cols` grid with the whole area still to visit.
    pub fn new(cols: usize, rows: usize, max_depth: usize, corridor_width: usize) -> (b: Self)
        requires
            rows >= 1,
            cols >= 1,
            cols * 4 + 16 <= usize::MAX,
            rows * 4 + 16 <= usize::MAX,
            corridor_width + rows + cols <= usize::MAX,
        ensures
            b.wf(),
            b.rows == rows && b.cols == cols && b.max_depth == max_depth && b.corridor_width == corridor_width,
            forall|a: (int, int)| in_grid(rows as int, cols as int, a) ==> #[trigger] b.grid@[a.0]@[a.1],
            b.frames@ == seq![BspFrame::Visit { x: 0, y: 0, w: cols, h: rows, depth: 0 }],
            b.centers@.len() == 0,
            b.border_walls(),
    {
        let mut grid: Vec<Vec<bool>> = Vec::new();
        let mut r: usize = 0;
        while r < rows
            invariant
                r <= rows,
                grid@.len() == r,
                forall|i: int| 0 <= i < r ==> (#[trigger] grid@[i])@ == Seq::new(cols as nat, |j: int| true),
            decreases rows - r,
        {
            let row = vec![true; cols];
            proof {
                assert(row@ =~= Seq::new(cols as nat, |j: int| true));
            }
            grid.push(row);
            r = r + 1;
        }
        let mut frames: Vec<BspFrame> = Vec::new();
        frames.push(BspFrame::Visit { x: 0, y: 0, w: cols, h: rows, depth: 0 });
        let b = BspBuilder { grid, rows, cols, max_depth, corridor_width, frames, centers: Vec::new() };
        proof {
            assert(b.frames@ =~= seq![BspFrame::Visit { x: 0, y: 0, w: cols, h: rows, depth: 0 }]);
            assert(b.frames@.drop_last() =~= Seq::<BspFrame>::empty());
            assert(b.frame_ok(b.frames@[0]));
            assert forall|c: int| 0 <= c < cols implies #[trigger] b.grid@[0]@[c] by {
                assert(b.grid@[0]@ == Seq::new(cols as nat, |j: int| true));
            }
            assert forall|r: int| 0 <= r < rows implies #[trigger] b.grid@[r]@[0] by {
                assert(b.grid@[r]@ == Seq::new(cols as nat, |j: int| true));
            }
        }
        b
    }
}

/// The first half of a split region: the left part of a wide region, the
/// top part of a tall one.
pub open spec fn first_half(x: usize, y: usize, w: usize, h: usize, depth: usize, v: usize) -> BspFrame {
    if w >= h {
        BspFrame::Visit { x, y, w: v, h, depth: (depth + 1) as usize }
    } else {
        BspFrame::Visit { x, y, w, h: v, depth: (depth + 1) as usize }
    }
}

/// The second half of a split region, its origin kept inside the grid and
/// its side at least 4.
pub open spec fn second_half(
    cols: usize,
    rows: usize,
    x: usize,
    y: usize,
    w: usize,
    h: usize,
    depth: usize,
    v: usize,
) -> BspFrame {
    if w >= h {
        BspFrame::Visit {
            x: min_int(x + v, cols - 1) as usize,
            y,
            w: max_int(sat_sub(w as int, v as int), 4) as usize,
            h,
            depth: (depth + 1) as usize,
        }
    } else {
        BspFrame::Visit {
            x,
            y: min_int(y + v, rows - 1) as usize,
            w,
            h: max_int(sat_sub(h as int, v as int), 4) as usize,
            depth: (depth + 1) as usize,
        }
    }
}

/// One call of `step` on a non-empty stack.
pub open spec fn step_taken(o: BspBuilder, f: BspBuilder, s: BspStep) -> bool {
    match o.frames@.last() {
        BspFrame::Visit { x, y, w, h, depth } => if is_leaf(w as int, h as int, depth as int, o.max_depth as int) {
            s == BspStep::Room(w, h) && f.grid@ == o.grid@ && f.frames@ == o.frames@ && f.centers@ == o.centers@
        } else {
            let side = if w >= h { w as int } else { h as int };
            &&& s is Working
            &&& f.grid@ == o.grid@
            &&& f.centers@ == o.centers@
            &&& exists|v: usize|
                split_lo(side) <= v <= split_hi(side) && #[trigger] f.frames@ == o.frames@.drop_last().push(
                    BspFrame::AfterFirst { x, y, w, h, depth, split_at: v },
                ).push(first_half(x, y, w, h, depth, v))
        },
        BspFrame::AfterFirst { x, y, w, h, depth, split_at } => {
            &&& s is Working
            &&& f.grid@ == o.grid@
            &&& f.centers@ == o.centers@
            &&& f.frames@ == o.frames@.drop_last().push(BspFrame::AfterSecond).push(
                second_half(o.cols, o.rows, x, y, w, h, depth, split_at),
            )
        },
        BspFrame::AfterSecond => {
            let n = o.centers@.len() as int;
            let c1 = o.centers@[n - 2];
            let c2 = o.centers@[n - 1];
            &&& s is Working
            &&& f.frames@ == o.frames@.drop_last()
            &&& f.centers@ == o.centers@.drop_last().drop_last().push(
                (((c1.0 + c2.0) / 2) as usize, ((c1.1 + c2.1) / 2) as usize),
            )
            &&& forall|a: (int, int)|
                in_grid(o.rows as int, o.cols as int, a) ==> #[trigger] f.grid@[a.0]@[a.1] == (o.grid@[a.0]@[a.1] && !on_corridor(
                    c1.0 as int,
                    c1.1 as int,
                    c2.0 as int,
                    c2.1 as int,
                    o.corridor_width as int,
                    a,
                ))
        },
    }
}

/// The room of a leaf region `f` placed with offsets `ox`, `oy`.
pub open spec fn room_placed(o: BspBuilder, f: BspBuilder, rw_raw: int, rh_raw: int, ox: int, oy: int) -> bool {
    match o.frames@.last() {
        BspFrame::Visit { x, y, w, h, depth } => {
            let rw = room_side(rw_raw, w as int);
            let rh = room_side(rh_raw, h as int);
            let rx = x + ox;
            let ry = y + oy;
            &&& 1 <= ox <= offset_hi(w as int, rw)
            &&& 1 <= oy <= offset_hi(h as int, rh)
            &&& f.frames@ == o.frames@.drop_last()
            &&& f.centers@ == o.centers@.push(
                (min_int(rx + rw / 2, o.cols - 1) as usize, min_int(ry + rh / 2, o.rows - 1) as usize),
            )
            &&& forall|a: (int, int)|
                in_grid(o.rows as int, o.cols as int, a) ==> #[trigger] f.grid@[a.0]@[a.1] == (o.grid@[a.0]@[a.1] && !(ry
                    <= a.0 < ry + rh && rx <= a.1 < rx + rw))
        },
        _ => false,
    }
}

proof fn lemma_sum_waiting_push(frames: Seq<BspFrame>, f: BspFrame)
    ensures
        sum_waiting(frames.push(f)) == sum_waiting(frames) + waiting(f),
{
    assert(frames.push(f).drop_last() =~= frames);
}

impl BspBuilder {
    /// Advances the partition by one frame: splits a region (drawing the
    /// split position), starts a second half, joins two finished halves by
    /// a corridor, or asks for the size of a leaf room.
    pub fn step(&mut self, rng: &mut StdRng) -> (s: BspStep)
        requires
            old(self).wf(),
        ensures
            final(self).wf(),
            final(self).same_setup(*old(self)),
            old(self).frames@.len() == 0 ==> s is Finished && final(self).grid@ == old(self).grid@ && final(self).frames@
                == old(self).frames@ && final(self).centers@ == old(self).centers@,
            old(self).frames@.len() > 0 ==> step_taken(*old(self), *final(self), s),
            forall|a: (int, int)|
                in_grid(old(self).rows as int, old(self).cols as int, a) && !old(self).grid@[a.0]@[a.1]
                    ==> !#[trigger] final(self).grid@[a.0]@[a.1],
    {
        let ghost o = *self;
        let k = self.frames.len();
        if k == 0 {
            return BspStep::Finished;
        }
        let top = self.frames[k - 1];
        proof {
            assert(self.frame_ok(self.frames@[k - 1]));
            assert(self.frames@.drop_last().push(top) =~= self.frames@);
        }
        match top {
            BspFrame::Visit { x, y, w, h, depth } => {
                if depth >= self.max_depth || w < 8 || h < 8 {
                    return BspStep::Room(w, h);
                }
                let side = if w >= h { w } else { h };
                let lo = if side / 3 >= 1 { side / 3 } else { 1 };
                let hi = if 2 * side / 3 >= lo { 2 * side / 3 } else { lo };
                let split_at = random_between(rng, lo, hi);
                let first = if w >= h {
                    BspFrame::Visit { x, y, w: split_at, h, depth: depth + 1 }
                } else {
                    BspFrame::Visit { x, y, w, h: split_at, depth: depth + 1 }
                };
                self.frames.pop();
                self.frames.push(BspFrame::AfterFirst { x, y, w, h, depth, split_at });
                self.frames.push(first);
                proof {
                    let fr = self.frames@;
                    assert(fr == o.frames@.drop_last().push(BspFrame::AfterFirst { x, y, w, h, depth, split_at }).push(
                        first_half(x, y, w, h, depth, split_at),
                    ));
                    assert(fr.drop_last() =~= o.frames@.drop_last().push(BspFrame::AfterFirst { x, y, w, h, depth, split_at }));
                    lemma_sum_waiting_push(o.frames@.drop_last(), BspFrame::AfterFirst { x, y, w, h, depth, split_at });
                    assert forall|i: int| 0 <= i < fr.len() implies self.frame_ok(#[trigger] fr[i]) by {
                        if i < fr.len() - 2 {
                            assert(fr[i] == o.frames@[i]);
                        }
                    }
                    assert forall|i: int| 0 <= i < fr.len() - 1 implies !((#[trigger] fr[i]) is Visit) by {
                        if i < fr.len() - 2 {
                            assert(fr[i] == o.frames@[i]);
                        }
                    }
                }
                BspStep::Working
            },
            BspFrame::AfterFirst { x, y, w, h, depth, split_at } => {
                let second = if w >= h {
                    let sum = x + split_at;
                    let right_x = if sum <= self.cols - 1 { sum } else { self.cols - 1 };
                    let rem = if w >= split_at { w - split_at } else { 0 };
                    let right_w = if rem >= 4 { rem } else { 4 };
                    BspFrame::Visit { x: right_x, y, w: right_w, h, depth: depth + 1 }
                } else {
                    let sum = y + split_at;
                    let bot_y = if sum <= self.rows - 1 { sum } else { self.rows - 1 };
                    let rem = if h >= split_at { h - split_at } else { 0 };
                    let bot_h = if rem >= 4 { rem } else { 4 };
                    BspFrame::Visit { x, y: bot_y, w, h: bot_h, depth: depth + 1 }
                };
                self.frames.pop();
                self.frames.push(BspFrame::AfterSecond);
                self.frames.push(second);
                proof {
                    let fr = self.frames@;
                    assert(second == second_half(o.cols, o.rows, x, y, w, h, depth, split_at));
                    assert(fr.drop_last() =~= o.frames@.drop_last().push(BspFrame::AfterSecond));
                    lemma_sum_waiting_push(o.frames@.drop_last(), BspFrame::AfterSecond);
                    assert forall|i: int| 0 <= i < fr.len() implies self.frame_ok(#[trigger] fr[i]) by {
                        if i < fr.len() - 2 {
                            assert(fr[i] == o.frames@[i]);
                        }
                    }
                    assert forall|i: int| 0 <= i < fr.len() - 1 implies !((#[trigger] fr[i]) is Visit) by {
                        if i < fr.len() - 2 {
                            assert(fr[i] == o.frames@[i]);
                        }
                    }
                }
                BspStep::Working
            },
            BspFrame::AfterSecond => {
                let n = self.centers.len();
                proof {
                    assert(o.frames@.drop_last().push(BspFrame::AfterSecond) =~= o.frames@);
                    if k >= 2 {
                        lemma_sum_waiting_nonneg(o.frames@.drop_last());
                    } else {
                        assert(o.frames@.drop_last().len() == 0);
                    }
                }
                let (cx2, cy2) = self.centers[n - 1];
                let (cx1, cy1) = self.centers[n - 2];
                proof {
                    assert(self.centers@[n - 1].0 < self.cols);
                    assert(self.centers@[n - 2].0 < self.cols);
                }
                self.centers.pop();
                self.centers.pop();
                carve_corridor(&mut self.grid, cx1, cy1, cx2, cy2, self.corridor_width);
                self.centers.push(((cx1 + cx2) / 2, (cy1 + cy2) / 2));
                self.frames.pop();
                proof {
                    let fr = self.frames@;
                    assert(fr =~= o.frames@.drop_last());
                    assert(self.centers@ =~= o.centers@.drop_last().drop_last().push((((cx1 + cx2) / 2) as usize, ((cy1 + cy2) / 2) as usize)));
                    if fr.len() > 0 {
                        assert(fr.drop_last().push(fr.last()) =~= fr);
                        lemma_sum_waiting_push(fr.drop_last(), fr.last());
                        assert(!(fr.last() is Visit)) by {
                            assert(fr.last() == o.frames@[fr.len() - 1]);
                        }
                    }
                    assert forall|i: int| 0 <= i < fr.len() implies self.frame_ok(#[trigger] fr[i]) by {
                        assert(fr[i] == o.frames@[i]);
                    }
                    assert forall|i: int| 0 <= i < fr.len() - 1 implies !((#[trigger] fr[i]) is Visit) by {
                        assert(fr[i] == o.frames@[i]);
                    }
                    assert forall|i: int| 0 <= i < self.centers@.len() implies (#[trigger] self.centers@[i]).0 < self.cols
                        && self.centers@[i].1 < self.rows by {
                        if i < self.centers@.len() - 1 {
                            assert(self.centers@[i] == o.centers@[i]);
                        }
                    }
                }
                BspStep::Working
            },
        }
    }
}

proof fn lemma_sum_waiting_nonneg(frames: Seq<BspFrame>)
    ensures
        sum_waiting(frames) >= 0,
    decreases frames.len(),
{
    if frames.len() > 0 {
        lemma_sum_waiting_nonneg(frames.drop_last());
    }
}

impl BspBuilder {
    /// Places the room of the leaf region on top of the stack: its sides are
    /// the raw sizes clamped to the region, its offsets drawn at random; the
    /// room is cleared and its centre recorded.
    #[verifier::rlimit(50)]
    pub fn place_room(&mut self, rw_raw: usize, rh_raw: usize, rng: &mut StdRng)
        requires
            old(self).wf(),
            old(self).frames@.len() > 0,
            old(self).frames@.last() matches BspFrame::Visit { x, y, w, h, depth } && is_leaf(
                w as int,
                h as int,
                depth as int,
                old(self).max_depth as int,
            ),
        ensures
            final(self).wf(),
            final(self).same_setup(*old(self)),
            exists|ox: int, oy: int| #[trigger] room_placed(*old(self), *final(self), rw_raw as int, rh_raw as int, ox, oy),
            forall|a: (int, int)|
                in_grid(old(self).rows as int, old(self).cols as int, a) && !old(self).grid@[a.0]@[a.1]
                    ==> !#[trigger] final(self).grid@[a.0]@[a.1],
    {
        let ghost o = *self;
        let k = self.frames.len();
        let top = self.frames[k - 1];
        proof {
            assert(self.frame_ok(self.frames@[k - 1]));
        }
        match top {
            BspFrame::Visit { x, y, w, h, depth } => {
                let wm2 = if w >= 2 { w - 2 } else { 0 };
                let hi_w = if wm2 >= 2 { wm2 } else { 2 };
                let rw = if rw_raw < 2 { 2 } else if rw_raw > hi_w { hi_w } else { rw_raw };
                let hm2 = if h >= 2 { h - 2 } else { 0 };
                let hi_h = if hm2 >= 2 { hm2 } else { 2 };
                let rh = if rh_raw < 2 { 2 } else if rh_raw > hi_h { hi_h } else { rh_raw };
                let wr = if w >= rw + 1 { w - (rw + 1) } else { 0 };
                let max_ox = if wr >= 1 { wr } else { 1 };
                let hr = if h >= rh + 1 { h - (rh + 1) } else { 0 };
                let max_oy = if hr >= 1 { hr } else { 1 };
                let ox = random_between(rng, 1, max_ox);
                let oy = random_between(rng, 1, max_oy);
                let rx = x + ox;
                let ry = y + oy;
                let ghost g0 = self.grid@;
                clear_rect(&mut self.grid, self.rows, self.cols, ry, rh, rx, rw);
                let cxs = rx + rw / 2;
                let cx = if cxs <= self.cols - 1 { cxs } else { self.cols - 1 };
                let cys = ry + rh / 2;
                let cy = if cys <= self.rows - 1 { cys } else { self.rows - 1 };
                self.centers.push((cx, cy));
                self.frames.pop();
                proof {
                    let fr = self.frames@;
                    assert(fr =~= o.frames@.drop_last());
                    assert(o.frames@.drop_last().push(top) =~= o.frames@);
                    if fr.len() > 0 {
                        assert(fr.drop_last().push(fr.last()) =~= fr);
                        lemma_sum_waiting_push(fr.drop_last(), fr.last());
                        assert(!(fr.last() is Visit)) by {
                            assert(fr.last() == o.frames@[fr.len() - 1]);
                        }
                    }
                    assert forall|i: int| 0 <= i < fr.len() implies self.frame_ok(#[trigger] fr[i]) by {
                        assert(fr[i] == o.frames@[i]);
                    }
                    assert forall|i: int| 0 <= i < fr.len() - 1 implies !((#[trigger] fr[i]) is Visit) by {
                        assert(fr[i] == o.frames@[i]);
                    }
                    assert forall|i: int| 0 <= i < self.centers@.len() implies (#[trigger] self.centers@[i]).0 < self.cols
                        && self.centers@[i].1 < self.rows by {
                        if i < self.centers@.len() - 1 {
                            assert(self.centers@[i] == o.centers@[i]);
                        }
                    }
                    assert(room_placed(o, *self, rw_raw as int, rh_raw as int, ox as int, oy as int));
                }
            },
            _ => {},
        }
    }

    /// The carved grid.
    pub fn into_grid(self) -> (grid: Vec<Vec<bool>>)
        ensures
            grid@ == self.grid@,
    {
        self.grid
    }
}

/// Clears the cells of rows `ry .. ry + rh` and columns `rx .. rx + rw`
/// that lie in the grid.
fn clear_rect(grid: &mut Vec<Vec<bool>>, rows: usize, cols: usize, ry: usize, rh: usize, rx: usize, rw: usize)
    requires
        is_rect(old(grid)@, rows as int, cols as int),
        ry + rh <= usize::MAX,
        rx + rw <= usize::MAX,
    ensures
        is_rect(final(grid)@, rows as int, cols as int),
        forall|a: (int, int)|
            in_grid(rows as int, cols as int, a) ==> #[trigger] final(grid)@[a.0]@[a.1] == (old(grid)@[a.0]@[a.1] && !(ry <= a.0 < ry
                + rh && rx <= a.1 < rx + rw)),
{
    let ghost g0 = grid@;
    let row_end = if ry + rh <= rows { ry + rh } else { rows };
    let col_end = if rx + rw <= cols { rx + rw } else { cols };
    let mut row = ry;
    while row < row_end
        invariant
            is_rect(grid@, rows as int, cols as int),
            ry <= row,
            row_end <= rows,
            col_end <= cols,
            row_end as int == min_int(ry + rh, rows as int),
            col_end as int == min_int(rx + rw, cols as int),
            row <= if ry <= row_end { row_end as int } else { ry as int },
            forall|a: (int, int)|
                in_grid(rows as int, cols as int, a) ==> #[trigger] grid@[a.0]@[a.1] == (g0[a.0]@[a.1] && !(ry <= a.0 < row && rx <= a.1
                    < rx + rw)),
        decreases row_end - row,
    {
        let mut col = rx;
        while col < col_end
            invariant
                is_rect(grid@, rows as int, cols as int),
                ry <= row < row_end,
                row_end <= rows,
                col_end <= cols,
                col_end as int == min_int(rx + rw, cols as int),
                rx <= col,
                col <= if rx <= col_end { col_end as int } else { rx as int },
                forall|a: (int, int)|
                    in_grid(rows as int, cols as int, a) ==> #[trigger] grid@[a.0]@[a.1] == (g0[a.0]@[a.1] && !(ry <= a.0 < row && rx
                        <= a.1 < rx + rw) && !(a.0 == row && rx <= a.1 < col)),
            decreases col_end - col,
        {
            let ghost before = grid@;
            grid[row].set(col, false);
            proof {
                assert forall|r: int| 0 <= r < rows implies (#[trigger] grid@[r])@.len() == cols by {
                    assert(before[r]@.len() == cols);
                }
                assert forall|a: (int, int)| in_grid(rows as int, cols as int, a) implies #[trigger] grid@[a.0]@[a.1] == (g0[a.0]@[a.1]
                    && !(ry <= a.0 < row && rx <= a.1 < rx + rw) && !(a.0 == row && rx <= a.1 < col + 1)) by {
                    assert(grid@[a.0]@[a.1] == if a == (row as int, col as int) { false } else { before[a.0]@[a.1] });
                }
            }
            col = col + 1;
        }
        row = row + 1;
    }
}

/// Steps needed to finish a region that may still split `k` more times.
pub open spec fn subtree_cost(k: nat) -> nat
    decreases k,
{
    if k == 0 {
        1
    } else {
        3 + 2 * subtree_cost((k - 1) as nat)
    }
}

/// Steps a frame still needs.
pub open spec fn frame_cost(f: BspFrame, max_depth: int) -> nat {
    match f {
        BspFrame::Visit { depth, .. } => subtree_cost(sat_sub(max_depth, depth as int) as nat),
        BspFrame::AfterFirst { depth, .. } => 2 + subtree_cost(sat_sub(max_depth, depth + 1) as nat),
        BspFrame::AfterSecond => 1,
    }
}

/// Steps the whole stack still needs.
pub open spec fn remaining_work(frames: Seq<BspFrame>, max_depth: int) -> nat
    decreases frames.len(),
{
    if frames.len() == 0 {
        0
    } else {
        remaining_work(frames.drop_last(), max_depth) + frame_cost(frames.last(), max_depth)
    }
}

proof fn lemma_work_push(frames: Seq<BspFrame>, f: BspFrame, max_depth: int)
    ensures
        remaining_work(frames.push(f), max_depth) == remaining_work(frames, max_depth) + frame_cost(f, max_depth),
{
    assert(frames.push(f).drop_last() =~= frames);
}

/// Every `step` that does not ask for a room lowers the remaining work, so
/// the partition finishes.
pub proof fn lemma_step_progress(o: BspBuilder, f: BspBuilder, s: BspStep)
    requires
        o.wf(),
        f.same_setup(o),
        o.frames@.len() > 0,
        step_taken(o, f, s),
        !(s is Room),
    ensures
        remaining_work(f.frames@, o.max_depth as int) < remaining_work(o.frames@, o.max_depth as int),
{
    let md = o.max_depth as int;
    let below = o.frames@.drop_last();
    assert(below.push(o.frames@.last()) =~= o.frames@);
    lemma_work_push(below, o.frames@.last(), md);
    assert(o.frame_ok(o.frames@[o.frames@.len() - 1]));
    match o.frames@.last() {
        BspFrame::Visit { x, y, w, h, depth } => {
            let v = choose|v: usize|
                split_lo(if w >= h { w as int } else { h as int }) <= v <= split_hi(if w >= h { w as int } else { h as int })
                    && #[trigger] f.frames@ == below.push(BspFrame::AfterFirst { x, y, w, h, depth, split_at: v }).push(
                    first_half(x, y, w, h, depth, v),
                );
            let af = BspFrame::AfterFirst { x, y, w, h, depth, split_at: v };
            lemma_work_push(below, af, md);
            lemma_work_push(below.push(af), first_half(x, y, w, h, depth, v), md);
            assert(sat_sub(md, depth as int) == sat_sub(md, depth + 1) + 1);
        },
        BspFrame::AfterFirst { x, y, w, h, depth, split_at } => {
            lemma_work_push(below, BspFrame::AfterSecond, md);
            lemma_work_push(below.push(BspFrame::AfterSecond), second_half(o.cols, o.rows, x, y, w, h, depth, split_at), md);
        },
        BspFrame::AfterSecond => {},
    }
}

/// Placing a room lowers the remaining work.
pub proof fn lemma_room_progress(o: BspBuilder, f: BspBuilder, rw_raw: int, rh_raw: int, ox: int, oy: int)
    requires
        o.frames@.len() > 0,
        room_placed(o, f, rw_raw, rh_raw, ox, oy),
    ensures
        remaining_work(f.frames@, o.max_depth as int) < remaining_work(o.frames@, o.max_depth as int),
{
    let below = o.frames@.drop_last();
    assert(below.push(o.frames@.last()) =~= o.frames@);
    lemma_work_push(below, o.frames@.last(), o.max_depth as int);
    lemma_subtree_cost_pos(sat_sub(o.max_depth as int, 0) as nat);
    match o.frames@.last() {
        BspFrame::Visit { depth, .. } => {
            lemma_subtree_cost_pos(sat_sub(o.max_depth as int, depth as int) as nat);
        },
        _ => {},
    }
}

/// How `step` splits a region: a region that is not a leaf (its depth is
/// below the limit and both sides are at least 8) is cut across its longer
/// side, the width when it is at least the height. The part left of (or
/// above) the cut is visited next: it keeps the region's corner and the
/// other side in full, and its cut side lies between a third and two thirds
/// of the region's (at least 1). Below it waits the region itself, with the
/// cut position recorded.
pub proof fn lemma_split_across_longer_side(o: BspBuilder, f: BspBuilder, s: BspStep)
    requires
        o.frames@.len() > 0,
        step_taken(o, f, s),
        o.frames@.last() matches BspFrame::Visit { w, h, depth, .. } && depth < o.max_depth && w >= 8 && h >= 8,
    ensures
        s is Working,
        f.frames@.len() == o.frames@.len() + 1,
        f.frames@.subrange(0, o.frames@.len() - 1) == o.frames@.subrange(0, o.frames@.len() - 1),
        match o.frames@.last() {
            BspFrame::Visit { x, y, w, h, depth } => {
                let long = if w >= h { w as int } else { h as int };
                let lo = if long / 3 >= 1 { long / 3 } else { 1 };
                let hi = if 2 * long / 3 >= lo { 2 * long / 3 } else { lo };
                match f.frames@.last() {
                    BspFrame::Visit { x: fx, y: fy, w: fw, h: fh, depth: fd } => {
                        &&& fx == x && fy == y && fd == depth + 1
                        &&& w >= h ==> fh == h && lo <= fw <= hi
                        &&& w < h ==> fw == w && lo <= fh <= hi
                        &&& f.frames@[o.frames@.len() - 1] == BspFrame::AfterFirst {
                            x,
                            y,
                            w,
                            h,
                            depth,
                            split_at: if w >= h { fw } else { fh },
                        }
                    },
                    _ => false,
                }
            },
            _ => false,
        },
{
    let k = o.frames@.len() as int;
    match o.frames@.last() {
        BspFrame::Visit { x, y, w, h, depth } => {
            let side = if w >= h { w as int } else { h as int };
            let v = choose|v: usize|
                split_lo(side) <= v <= split_hi(side) && #[trigger] f.frames@ == o.frames@.drop_last().push(
                    BspFrame::AfterFirst { x, y, w, h, depth, split_at: v },
                ).push(first_half(x, y, w, h, depth, v));
            assert(f.frames@.subrange(0, k - 1) =~= o.frames@.subrange(0, k - 1));
        },
        _ => {},
    }
}

/// How `step` starts the second part of a split region: the part right of
/// (or below) the cut, from the cut (kept inside the grid) to the region's
/// far side, at least 4 wide (or tall), with the other side in full. Below
/// it waits a frame that will join the two parts.
pub proof fn lemma_second_part_follows_cut(o: BspBuilder, f: BspBuilder, s: BspStep)
    requires
        o.wf(),
        o.frames@.len() > 0,
        step_taken(o, f, s),
        o.frames@.last() is AfterFirst,
    ensures
        s is Working,
        f.frames@.len() == o.frames@.len() + 1,
        f.frames@.subrange(0, o.frames@.len() - 1) == o.frames@.subrange(0, o.frames@.len() - 1),
        f.frames@[o.frames@.len() - 1] == BspFrame::AfterSecond,
        match o.frames@.last() {
            BspFrame::AfterFirst { x, y, w, h, depth, split_at } => match f.frames@.last() {
                BspFrame::Visit { x: fx, y: fy, w: fw, h: fh, depth: fd } => {
                    &&& fd == depth + 1
                    &&& w >= h ==> fy == y && fh == h && fx == (if x + split_at <= o.cols - 1 { x + split_at } else { o.cols - 1 })
                        && fw == (if w >= split_at + 4 { w - split_at } else { 4 })
                    &&& w < h ==> fx == x && fw == w && fy == (if y + split_at <= o.rows - 1 { y + split_at } else { o.rows - 1 })
                        && fh == (if h >= split_at + 4 { h - split_at } else { 4 })
                },
                _ => false,
            },
            _ => false,
        },
{
    let k = o.frames@.len() as int;
    assert(o.frame_ok(o.frames@[k - 1]));
    assert(f.frames@.subrange(0, k - 1) =~= o.frames@.subrange(0, k - 1));
}

/// A leaf region (depth at the limit, or a side below 8) is not split:
/// `step` asks for its room, with the region's sides, and changes nothing.
pub proof fn lemma_leaf_asks_for_room(o: BspBuilder, f: BspBuilder, s: BspStep)
    requires
        o.frames@.len() > 0,
        step_taken(o, f, s),
        o.frames@.last() matches BspFrame::Visit { w, h, depth, .. } && (depth >= o.max_depth || w < 8 || h < 8),
    ensures
        match o.frames@.last() {
            BspFrame::Visit { w, h, .. } => s == BspStep::Room(w, h),
            _ => false,
        },
        f.grid@ == o.grid@,
        f.frames@ == o.frames@,
        f.centers@ == o.centers@,
{
}

/// A room's sides: the raw size when it fits between 2 and the region's
/// side less 2 (2 when the region is smaller), otherwise the nearer bound.
pub proof fn lemma_room_side_clamps(raw: int, s: int)
    ensures
        ({
            let hi = if s - 2 >= 2 { s - 2 } else { 2 };
            &&& 2 <= room_side(raw, s) <= hi
            &&& 2 <= raw <= hi ==> room_side(raw, s) == raw
            &&& raw < 2 ==> room_side(raw, s) == 2
            &&& raw > hi ==> room_side(raw, s) == hi
        }),
{
}

/// Where `place_room` puts a room: at least one cell in from the leaf
/// region's top-left corner, and the cells it clears are exactly the grid
/// cells of that room; the room's centre is recorded.
pub proof fn lemma_room_inside_region(o: BspBuilder, f: BspBuilder, rw_raw: int, rh_raw: int, ox: int, oy: int)
    requires
        o.frames@.len() > 0,
        room_placed(o, f, rw_raw, rh_raw, ox, oy),
    ensures
        match o.frames@.last() {
            BspFrame::Visit { x, y, w, h, .. } => {
                let rw = room_side(rw_raw, w as int);
                let rh = room_side(rh_raw, h as int);
                &&& x + 1 <= x + ox && y + 1 <= y + oy
                &&& ox <= (if w - rw - 1 >= 1 { w - rw - 1 } else { 1 })
                &&& oy <= (if h - rh - 1 >= 1 { h - rh - 1 } else { 1 })
                &&& forall|a: (int, int)|
                    0 <= a.0 < o.rows && 0 <= a.1 < o.cols ==> (#[trigger] f.grid@[a.0]@[a.1] != o.grid@[a.0]@[a.1] ==> y + oy <= a.0 < y
                        + oy + rh && x + ox <= a.1 < x + ox + rw)
                &&& f.centers@.len() == o.centers@.len() + 1
                &&& f.frames@.len() == o.frames@.len() - 1
            },
            _ => false,
        },
{
    match o.frames@.last() {
        BspFrame::Visit { x, y, w, h, .. } => {
            let rw = room_side(rw_raw, w as int);
            let rh = room_side(rh_raw, h as int);
            assert forall|a: (int, int)|
                0 <= a.0 < o.rows && 0 <= a.1 < o.cols implies (#[trigger] f.grid@[a.0]@[a.1] != o.grid@[a.0]@[a.1] ==> y + oy
                <= a.0 < y + oy + rh && x + ox <= a.1 < x + ox + rw) by {
                assert(in_grid(o.rows as int, o.cols as int, a));
            }
        },
        _ => {},
    }
}

/// Every `step` keeps the top row and the left column wall: corridors run
/// between centres that lie off them.
pub proof fn lemma_step_keeps_border(o: BspBuilder, f: BspBuilder, s: BspStep)
    requires
        o.wf(),
        f.wf(),
        f.same_setup(o),
        o.frames@.len() > 0,
        step_taken(o, f, s),
        o.border_walls(),
    ensures
        f.border_walls(),
{
    if o.rows >= 2 && o.cols >= 2 {
        match o.frames@.last() {
            BspFrame::AfterSecond => {
                let n = o.centers@.len() as int;
                assert(o.frames@.drop_last().push(BspFrame::AfterSecond) =~= o.frames@);
                if o.frames@.len() >= 2 {
                    lemma_sum_waiting_nonneg(o.frames@.drop_last());
                } else {
                    assert(o.frames@.drop_last().len() == 0);
                }
                let c1 = o.centers@[n - 2];
                let c2 = o.centers@[n - 1];
                assert(c1.0 >= 1 && c1.1 >= 1 && c2.0 >= 1 && c2.1 >= 1);
                assert forall|c: int| 0 <= c < f.cols implies #[trigger] f.grid@[0]@[c] by {
                    assert(in_grid(o.rows as int, o.cols as int, (0, c)));
                    assert(o.grid@[0]@[c]);
                }
                assert forall|r: int| 0 <= r < f.rows implies #[trigger] f.grid@[r]@[0] by {
                    assert(in_grid(o.rows as int, o.cols as int, (r, 0)));
                    assert(o.grid@[r]@[0]);
                }
                assert forall|i: int| 0 <= i < f.centers@.len() implies (#[trigger] f.centers@[i]).0 >= 1 && f.centers@[i].1 >= 1 by {
                    if i < n - 2 {
                        assert(f.centers@[i] == o.centers@[i]);
                    }
                }
            },
            _ => {},
        }
    }
}

/// Placing a room keeps the top row and the left column wall: rooms start
/// at least one cell in from their region's corner.
pub proof fn lemma_room_keeps_border(o: BspBuilder, f: BspBuilder, rw_raw: int, rh_raw: int, ox: int, oy: int)
    requires
        o.wf(),
        f.wf(),
        f.same_setup(o),
        o.frames@.len() > 0,
        room_placed(o, f, rw_raw, rh_raw, ox, oy),
        o.border_walls(),
    ensures
        f.border_walls(),
{
    if o.rows >= 2 && o.cols >= 2 {
        assert forall|c: int| 0 <= c < f.cols implies #[trigger] f.grid@[0]@[c] by {
            assert(in_grid(o.rows as int, o.cols as int, (0, c)));
            assert(o.grid@[0]@[c]);
        }
        assert forall|r: int| 0 <= r < f.rows implies #[trigger] f.grid@[r]@[0] by {
            assert(in_grid(o.rows as int, o.cols as int, (r, 0)));
            assert(o.grid@[r]@[0]);
        }
        assert forall|i: int| 0 <= i < f.centers@.len() implies (#[trigger] f.centers@[i]).0 >= 1 && f.centers@[i].1 >= 1 by {
            if i < o.centers@.len() {
                assert(f.centers@[i] == o.centers@[i]);
            }
        }
    }
}

proof fn lemma_subtree_cost_pos(k: nat)
    ensures
        subtree_cost(k) >= 1,
    decreases k,
{
    if k > 0 {
        lemma_subtree_cost_pos((k - 1) as nat);
    }
}

} // verus!
