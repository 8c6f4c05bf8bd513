//! Wave function collapse over a grid of tiles whose four edges are open
//! (0) or wall (1): the bookkeeping of possible tiles per cell, the choice of
//! the most constrained cell, and constraint propagation. The weighted tile
//! choice itself is made by the caller.
use std::collections::VecDeque;
use rand::rngs::StdRng;
use vstd::prelude::*;
use crate::counting::{
    count_true, grid_flags, lemma_count_true_bound, lemma_count_true_subset, lemma_grid_flags_change,
    lemma_grid_flags_same, lemma_row_flags_change, row_flags,
};
use crate::grid::{before, in_grid};
use crate::rng::random_below;

verus! {

/// A tile: its edges (north, east, south, west; 0 open, 1 wall) and the
/// 3 by 3 block of cells it expands to.
pub struct WfcTile {
    pub edges: [u8; 4],
    pub pattern: [[bool; 3]; 3],
}

/// Every edge value is 0 or 1.
pub open spec fn tiles_wf(tiles: Seq<WfcTile>) -> bool {
    forall|i: int, e: int| 0 <= i < tiles.len() && 0 <= e < 4 ==> #[trigger] tiles[i].edges@[e] <= 1
}

/// The outcome of choosing the next cell to fix.
pub enum WfcPick {
    /// Some unfixed cell has no possible tile left.
    Contradiction,
    /// Every cell is fixed.
    Done,
    /// An unfixed cell with the fewest possible tiles, at row and column.
    Cell(usize, usize),
}

/// Per cell, which of the `n` tiles are still possible and which tile, if
/// any, the cell was fixed to.
pub struct WfcGrid {
    pub rows: usize,
    pub cols: usize,
    pub n: usize,
    pub possible: Vec<Vec<Vec<bool>>>,
    pub collapsed: Vec<Vec<Option<usize>>>,
}

impl WfcGrid {
    /// The possible-tile flags of cell `a`.
    pub open spec fn opts(&self, a: (int, int)) -> Seq<bool> {
        self.possible@[a.0]@[a.1]@
    }

    /// The tile cell `a` was fixed to.
    pub open spec fn fixed(&self, a: (int, int)) -> Option<usize> {
        self.collapsed@[a.0]@[a.1]
    }

    /// Shapes agree: `rows` by `cols` cells, `n` flags each, fixed tiles
    /// below `n`.
    pub open spec fn wf(&self) -> bool {
        &&& self.possible@.len() == self.rows
        &&& self.collapsed@.len() == self.rows
        &&& forall|r: int| 0 <= r < self.rows ==> (#[trigger] self.possible@[r])@.len() == self.cols
        &&& forall|r: int| 0 <= r < self.rows ==> (#[trigger] self.collapsed@[r])@.len() == self.cols
        &&& forall|a: (int, int)| in_grid(self.rows as int, self.cols as int, a) ==> (#[trigger] self.opts(a)).len() == self.n
        &&& forall|a: (int, int)|
            in_grid(self.rows as int, self.cols as int, a) && (#[trigger] self.fixed(a)) is Some ==> self.fixed(a)->0 < self.n
    }

    /// Number of tiles still possible at `a`.
    pub open spec fn option_count(&self, a: (int, int)) -> nat {
        count_true(self.opts(a))
    }

    /// `a` is unfixed and no unfixed cell has fewer possible tiles.
    pub open spec fn is_min_entropy(&self, a: (int, int)) -> bool {
        &&& in_grid(self.rows as int, self.cols as int, a)
        &&& self.fixed(a) is None
        &&& forall|b: (int, int)|
            in_grid(self.rows as int, self.cols as int, b) && (#[trigger] self.fixed(b)) is None ==> self.option_count(a)
                <= self.option_count(b)
    }

    /// Some unfixed cell has no possible tile.
    pub open spec fn has_contradiction(&self) -> bool {
        exists|a: (int, int)|
            in_grid(self.rows as int, self.cols as int, a) && #[trigger] self.fixed(a) is None && self.option_count(a) == 0
    }

    /// Every cell is fixed.
    pub open spec fn all_fixed(&self) -> bool {
        forall|a: (int, int)| in_grid(self.rows as int, self.cols as int, a) ==> (#[trigger] self.fixed(a)) is Some
    }

    /// A fresh `rows` by `cols` grid where every one of the `n` tiles is possible everywhere.
    pub fn new(cols: usize, rows: usize, n: usize) -> (w: Self)
        ensures
            w.wf(),
            w.rows == rows && w.cols == cols && w.n == n,
            forall|a: (int, int), i: int| in_grid(rows as int, cols as int, a) && 0 <= i < n ==> #[trigger] w.opts(a)[i],
            forall|a: (int, int)| in_grid(rows as int, cols as int, a) ==> (#[trigger] w.fixed(a)) is None,
    {
        let mut possible: Vec<Vec<Vec<bool>>> = Vec::new();
        let mut collapsed: Vec<Vec<Option<usize>>> = Vec::new();
        let mut r: usize = 0;
        while r < rows
            invariant
                r <= rows,
                possible@.len() == r,
                collapsed@.len() == r,
                forall|i: int| 0 <= i < r ==> (#[trigger] possible@[i])@.len() == cols,
                forall|i: int| 0 <= i < r ==> (#[trigger] collapsed@[i])@.len() == cols,
                forall|i: int, j: int| 0 <= i < r && 0 <= j < cols ==> (#[trigger] possible@[i]@[j])@ == Seq::new(n as nat, |k: int| true),
                forall|i: int, j: int| 0 <= i < r && 0 <= j < cols ==> (#[trigger] collapsed@[i]@[j]) is None,
            decreases rows - r,
        {
            let mut prow: Vec<Vec<bool>> = Vec::new();
            let mut crow: Vec<Option<usize>> = Vec::new();
            let mut c: usize = 0;
            while c < cols
                invariant
                    c <= cols,
                    prow@.len() == c,
                    crow@.len() == c,
                    forall|j: int| 0 <= j < c ==> (#[trigger] prow@[j])@ == Seq::new(n as nat, |k: int| true),
                    forall|j: int| 0 <= j < c ==> (#[trigger] crow@[j]) is None,
                decreases cols - c,
            {
                let cellv = vec![true; n];
                proof {
                    assert(cellv@ =~= Seq::new(n as nat, |k: int| true));
                }
                prow.push(cellv);
                crow.push(None);
                c = c + 1;
            }
            possible.push(prow);
            collapsed.push(crow);
            r = r + 1;
        }
        WfcGrid { rows, cols, n, possible, collapsed }
    }

    /// Number of tiles still possible at `(r, c)`.
    pub fn count_options(&self, r: usize, c: usize) -> (k: usize)
        requires
            self.wf(),
            r < self.rows,
            c < self.cols,
        ensures
            k == self.option_count((r as int, c as int)),
    {
        let ghost a = (r as int, c as int);
        let cellv = &self.possible[r][c];
        let mut k: usize = 0;
        let mut i: usize = 0;
        while i < cellv.len()
            invariant
                i <= cellv@.len(),
                k == count_true(cellv@.take(i as int)),
                k <= i,
            decreases cellv@.len() - i,
        {
            proof {
                assert(cellv@.take(i as int + 1).drop_last() =~= cellv@.take(i as int));
            }
            if cellv[i] {
                k = k + 1;
            }
            i = i + 1;
        }
        proof {
            assert(cellv@.take(cellv@.len() as int) =~= cellv@);
        }
        k
    }

    /// The unfixed cells with the fewest possible tiles, in row-major order,
    /// or `None` when some unfixed cell has no possible tile.
    pub fn min_entropy_cells(&self) -> (res: Option<Vec<(usize, usize)>>)
        requires
            self.wf(),
        ensures
            res is None <==> self.has_contradiction(),
            res matches Some(v) ==> {
                &&& forall|a: (int, int)|
                    in_grid(self.rows as int, self.cols as int, a) ==> (v@.contains((a.0 as usize, a.1 as usize))
                        <==> #[trigger] self.is_min_entropy(a))
                &&& forall|i: int| 0 <= i < v@.len() ==> in_grid(self.rows as int, self.cols as int, (#[trigger] v@[i].0 as int, v@[i].1 as int))
                &&& forall|i: int, j: int|
                    0 <= i < j < v@.len() ==> before((#[trigger] v@[i].0 as int, v@[i].1 as int), (#[trigger] v@[j].0 as int, v@[j].1 as int))
            },
    {
        let ghost rows = self.rows as int;
        let ghost cols = self.cols as int;
        let mut best: usize = usize::MAX;
        let mut candidates: Vec<(usize, usize)> = Vec::new();
        let mut r: usize = 0;
        while r < self.rows
            invariant
                self.wf(),
                rows == self.rows as int,
                cols == self.cols as int,
                r <= self.rows,
                min_scan_state(*self, best, candidates@, (r as int, 0)),
                !exists|a: (int, int)|
                    in_grid(rows, cols, a) && before(a, (r as int, 0)) && #[trigger] self.fixed(a) is None
                        && self.option_count(a) == 0,
            decreases self.rows - r,
        {
            let mut c: usize = 0;
            while c < self.cols
                invariant
                    self.wf(),
                    rows == self.rows as int,
                    cols == self.cols as int,
                    r < self.rows,
                    c <= self.cols,
                    min_scan_state(*self, best, candidates@, (r as int, c as int)),
                    !exists|a: (int, int)|
                        in_grid(rows, cols, a) && before(a, (r as int, c as int)) && #[trigger] self.fixed(a) is None
                            && self.option_count(a) == 0,
                decreases self.cols - c,
            {
                let ghost pos = (r as int, c as int);
                let ghost old_cands = candidates@;
                let ghost old_best = best;
                if self.collapsed[r][c].is_some() {
                    proof {
                        lemma_min_scan_skip(*self, best, candidates@, pos);
                    }
                    c = c + 1;
                    continue;
                }
                let count = self.count_options(r, c);
                if count == 0 {
                    proof {
                        assert(in_grid(rows, cols, pos) && self.fixed(pos) is None && self.option_count(pos) == 0);
                    }
                    return None;
                }
                if count < best {
                    best = count;
                    candidates = vec![(r, c)];
                    proof {
                        assert(candidates@ =~= seq![(r, c)]);
                    }
                } else if count == best {
                    candidates.push((r, c));
                }
                proof {
                    lemma_min_scan_step(*self, old_best, old_cands, best, candidates@, pos);
                }
                c = c + 1;
            }
            proof {
                lemma_min_scan_row(*self, best, candidates@, r as int);
            }
            r = r + 1;
        }
        proof {
            let v = candidates@;
            assert forall|a: (int, int)|
                in_grid(rows, cols, a) implies (v.contains((a.0 as usize, a.1 as usize)) <==> #[trigger] self.is_min_entropy(a)) by {
                assert(before(a, (rows, 0)));
                if v.contains((a.0 as usize, a.1 as usize)) {
                    assert(self.fixed(a) is None && self.option_count(a) == best);
                    assert forall|b: (int, int)|
                        in_grid(rows, cols, b) && (#[trigger] self.fixed(b)) is None implies self.option_count(a)
                            <= self.option_count(b) by {
                        assert(before(b, (rows, 0)));
                    }
                }
                if self.is_min_entropy(a) {
                    let w = choose|w: (int, int)|
                        in_grid(rows, cols, w) && before(w, (rows, 0)) && #[trigger] self.fixed(w) is None && self.option_count(w) == best;
                    assert(self.option_count(a) <= self.option_count(w));
                    assert(self.option_count(w) <= self.option_count(a)) by {
                        assert(before(a, (rows, 0)));
                    }
                }
            }
            assert(!self.has_contradiction()) by {
                if self.has_contradiction() {
                    let a = choose|a: (int, int)|
                        in_grid(rows, cols, a) && #[trigger] self.fixed(a) is None && self.option_count(a) == 0;
                    assert(before(a, (rows, 0)));
                }
            }
        }
        Some(candidates)
    }

    /// Picks, with the generator, one of the unfixed cells with the fewest
    /// possible tiles.
    pub fn pick_cell(&self, rng: &mut StdRng) -> (pick: WfcPick)
        requires
            self.wf(),
        ensures
            pick is Contradiction <==> self.has_contradiction(),
            pick is Done <==> !self.has_contradiction() && self.all_fixed(),
            pick matches WfcPick::Cell(r, c) ==> self.is_min_entropy((r as int, c as int)) && !self.has_contradiction(),
            !(pick is Cell) ==> *final(rng) == *old(rng),
    {
        match self.min_entropy_cells() {
            None => WfcPick::Contradiction,
            Some(cands) => {
                if cands.len() == 0 {
                    proof {
                        assert forall|a: (int, int)| in_grid(self.rows as int, self.cols as int, a) implies (#[trigger] self.fixed(a)) is Some by {
                            if self.fixed(a) is None {
                                lemma_min_exists(*self, a);
                                let b = choose|b: (int, int)| #[trigger] self.is_min_entropy(b);
                                assert(!cands@.contains((b.0 as usize, b.1 as usize)));
                            }
                        }
                    }
                    WfcPick::Done
                } else {
                    let k = random_below(rng, 0, cands.len());
                    let (r, c) = cands[k];
                    proof {
                        assert(in_grid(self.rows as int, self.cols as int, (cands@[k as int].0 as int, cands@[k as int].1 as int)));
                        assert(cands@.contains((r, c)));
                        assert(self.is_min_entropy((r as int, c as int)));
                    }
                    WfcPick::Cell(r, c)
                }
            },
        }
    }

    /// The tiles still possible at `(r, c)`, in increasing order.
    pub fn options(&self, r: usize, c: usize) -> (opts: Vec<usize>)
        requires
            self.wf(),
            r < self.rows,
            c < self.cols,
        ensures
            forall|i: int| 0 <= i < opts@.len() ==> #[trigger] opts@[i] < self.n,
            forall|i: int| 0 <= i < self.n ==> (opts@.contains(i as usize) <==> self.opts((r as int, c as int))[i]),
            forall|i: int, j: int| 0 <= i < j < opts@.len() ==> #[trigger] opts@[i] < #[trigger] opts@[j],
    {
        let ghost a = (r as int, c as int);
        let cellv = &self.possible[r][c];
        let mut opts: Vec<usize> = Vec::new();
        let mut i: usize = 0;
        proof {
            assert(self.opts(a).len() == self.n);
        }
        while i < cellv.len()
            invariant
                cellv@ == self.opts(a),
                cellv@.len() == self.n,
                i <= cellv@.len(),
                forall|k: int| 0 <= k < opts@.len() ==> #[trigger] opts@[k] < i,
                forall|k: int| 0 <= k < i ==> (opts@.contains(k as usize) <==> cellv@[k]),
                forall|k: int, j: int| 0 <= k < j < opts@.len() ==> #[trigger] opts@[k] < #[trigger] opts@[j],
            decreases cellv@.len() - i,
        {
            let ghost o0 = opts@;
            if cellv[i] {
                opts.push(i);
            }
            proof {
                assert(cellv[i as int] ==> opts@ == o0.push(i));
                assert(!cellv[i as int] ==> opts@ == o0);
                assert forall|k: int| 0 <= k < i + 1 implies (opts@.contains(k as usize) <==> cellv@[k]) by {
                    if opts@.contains(k as usize) {
                        let j = choose|j: int| 0 <= j < opts@.len() && opts@[j] == k as usize;
                        if j < o0.len() {
                            assert(o0[j] == k as usize);
                            assert(o0.contains(k as usize));
                        }
                    }
                    if k < i && o0.contains(k as usize) {
                        let j = choose|j: int| 0 <= j < o0.len() && o0[j] == k as usize;
                        assert(opts@[j] == k as usize);
                    }
                    if k == i && cellv@[k] {
                        assert(opts@[opts@.len() - 1] == i);
                    }
                }
            }
            i = i + 1;
        }
        opts
    }

    /// The fixed tile of every cell, 0 for cells never fixed.
    pub fn result(&self) -> (tiles: Vec<Vec<usize>>)
        requires
            self.wf(),
        ensures
            tiles@.len() == self.rows,
            forall|r: int| 0 <= r < self.rows ==> (#[trigger] tiles@[r])@.len() == self.cols,
            forall|a: (int, int)|
                in_grid(self.rows as int, self.cols as int, a) ==> #[trigger] tiles@[a.0]@[a.1] == match self.fixed(a) {
                    Some(t) => t,
                    None => 0,
                },
    {
        let mut out: Vec<Vec<usize>> = Vec::new();
        let mut r: usize = 0;
        while r < self.rows
            invariant
                self.wf(),
                r <= self.rows,
                out@.len() == r,
                forall|i: int| 0 <= i < r ==> (#[trigger] out@[i])@.len() == self.cols,
                forall|a: (int, int)|
                    in_grid(r as int, self.cols as int, a) ==> #[trigger] out@[a.0]@[a.1] == match self.fixed(a) {
                        Some(t) => t,
                        None => 0,
                    },
            decreases self.rows - r,
        {
            let mut row: Vec<usize> = Vec::new();
            let mut c: usize = 0;
            while c < self.cols
                invariant
                    self.wf(),
                    r < self.rows,
                    c <= self.cols,
                    row@.len() == c,
                    forall|j: int| 0 <= j < c ==> #[trigger] row@[j] == match self.fixed((r as int, j)) {
                        Some(t) => t,
                        None => 0,
                    },
                decreases self.cols - c,
            {
                let v = match self.collapsed[r][c] {
                    Some(t) => t,
                    None => 0,
                };
                row.push(v);
                c = c + 1;
            }
            out.push(row);
            proof {
                assert forall|a: (int, int)| in_grid(r as int + 1, self.cols as int, a) implies #[trigger] out@[a.0]@[a.1]
                    == match self.fixed(a) {
                    Some(t) => t,
                    None => 0,
                } by {
                    if a.0 == r as int {
                        assert(out@[a.0]@ == row@);
                    }
                }
            }
            r = r + 1;
        }
        out
    }
}

/// The scan over the cells before `pos`: `best` is the fewest possible tiles
/// of a scanned unfixed cell (or the largest `usize` when there is none),
/// and `cands` lists, in scan order, the scanned unfixed cells with `best`
/// possible tiles.
spec fn min_scan_state(w: WfcGrid, best: usize, cands: Seq<(usize, usize)>, pos: (int, int)) -> bool {
    let rows = w.rows as int;
    let cols = w.cols as int;
    &&& forall|i: int| 0 <= i < cands.len() ==> in_grid(rows, cols, (#[trigger] cands[i].0 as int, cands[i].1 as int))
        && before((cands[i].0 as int, cands[i].1 as int), pos)
    &&& forall|i: int, j: int|
        0 <= i < j < cands.len() ==> before((#[trigger] cands[i].0 as int, cands[i].1 as int), (#[trigger] cands[j].0 as int, cands[j].1 as int))
    &&& forall|a: (int, int)|
        in_grid(rows, cols, a) && before(a, pos) ==> (cands.contains((a.0 as usize, a.1 as usize)) <==> (
        #[trigger] w.fixed(a) is None && w.option_count(a) == best))
    &&& forall|a: (int, int)|
        in_grid(rows, cols, a) && before(a, pos) && #[trigger] w.fixed(a) is None ==> best <= w.option_count(a)
    &&& (exists|a: (int, int)| in_grid(rows, cols, a) && before(a, pos) && #[trigger] w.fixed(a) is None) ==> exists|a: (int, int)|
        in_grid(rows, cols, a) && before(a, pos) && #[trigger] w.fixed(a) is None && w.option_count(a) == best
    &&& !(exists|a: (int, int)| in_grid(rows, cols, a) && before(a, pos) && #[trigger] w.fixed(a) is None) ==> best == usize::MAX
        && cands.len() == 0
}

proof fn lemma_min_scan_skip(w: WfcGrid, best: usize, cands: Seq<(usize, usize)>, pos: (int, int))
    requires
        w.wf(),
        min_scan_state(w, best, cands, pos),
        in_grid(w.rows as int, w.cols as int, pos),
        w.fixed(pos) is Some,
    ensures
        min_scan_state(w, best, cands, (pos.0, pos.1 + 1)),
{
    let rows = w.rows as int;
    let cols = w.cols as int;
    let npos = (pos.0, pos.1 + 1);
    assert forall|a: (int, int)| in_grid(rows, cols, a) && before(a, npos) && a != pos implies before(a, pos) by {}
    assert forall|a: (int, int)|
        in_grid(rows, cols, a) && before(a, npos) implies (cands.contains((a.0 as usize, a.1 as usize)) <==> (
        #[trigger] w.fixed(a) is None && w.option_count(a) == best)) by {
        if a == pos {
            if cands.contains((a.0 as usize, a.1 as usize)) {
                let k = choose|k: int| 0 <= k < cands.len() && cands[k] == (a.0 as usize, a.1 as usize);
                assert(before((cands[k].0 as int, cands[k].1 as int), pos));
            }
        }
    }
    if exists|a: (int, int)| in_grid(rows, cols, a) && before(a, npos) && #[trigger] w.fixed(a) is None {
        let a = choose|a: (int, int)| in_grid(rows, cols, a) && before(a, npos) && #[trigger] w.fixed(a) is None;
        assert(before(a, pos));
    }
}

proof fn lemma_min_scan_step(
    w: WfcGrid,
    best0: usize,
    cands0: Seq<(usize, usize)>,
    best: usize,
    cands: Seq<(usize, usize)>,
    pos: (int, int),
)
    requires
        w.wf(),
        min_scan_state(w, best0, cands0, pos),
        in_grid(w.rows as int, w.cols as int, pos),
        w.fixed(pos) is None,
        w.option_count(pos) > 0,
        w.option_count(pos) < best0 ==> best == w.option_count(pos) && cands == seq![(pos.0 as usize, pos.1 as usize)],
        w.option_count(pos) == best0 ==> best == best0 && cands == cands0.push((pos.0 as usize, pos.1 as usize)),
        w.option_count(pos) > best0 ==> best == best0 && cands == cands0,
    ensures
        min_scan_state(w, best, cands, (pos.0, pos.1 + 1)),
{
    let rows = w.rows as int;
    let cols = w.cols as int;
    let npos = (pos.0, pos.1 + 1);
    let key = (pos.0 as usize, pos.1 as usize);
    let cnt = w.option_count(pos);
    assert forall|a: (int, int)| in_grid(rows, cols, a) && before(a, npos) && a != pos implies before(a, pos) by {}
    assert(!cands0.contains(key)) by {
        if cands0.contains(key) {
            let k = choose|k: int| 0 <= k < cands0.len() && cands0[k] == key;
            assert(before((cands0[k].0 as int, cands0[k].1 as int), pos));
        }
    }
    assert forall|i: int| 0 <= i < cands.len() implies in_grid(rows, cols, (#[trigger] cands[i].0 as int, cands[i].1 as int))
        && before((cands[i].0 as int, cands[i].1 as int), npos) by {
        if cnt >= best0 && i < cands0.len() {
            assert(cands[i] == cands0[i]);
        }
    }
    assert forall|i: int, j: int|
        0 <= i < j < cands.len() implies before((#[trigger] cands[i].0 as int, cands[i].1 as int), (#[trigger] cands[j].0 as int, cands[j].1 as int)) by {
        if cnt >= best0 {
            assert(cands[i] == cands0[i]);
            if j < cands0.len() {
                assert(cands[j] == cands0[j]);
            }
        }
    }
    assert forall|a: (int, int)|
        in_grid(rows, cols, a) && before(a, npos) implies (cands.contains((a.0 as usize, a.1 as usize)) <==> (
        #[trigger] w.fixed(a) is None && w.option_count(a) == best)) by {
        let ka = (a.0 as usize, a.1 as usize);
        if a == pos {
            if cnt <= best0 {
                assert(cands[cands.len() - 1] == key);
            }
        } else {
            assert(ka != key);
            if cnt < best0 {
                if cands.contains(ka) {
                    assert(cands[0] == key);
                }
                if w.fixed(a) is None && w.option_count(a) == best {
                    assert(best0 <= w.option_count(a));
                }
            } else if cnt == best0 {
                if cands0.contains(ka) {
                    let k = choose|k: int| 0 <= k < cands0.len() && cands0[k] == ka;
                    assert(cands[k] == ka);
                }
                if cands.contains(ka) {
                    let k = choose|k: int| 0 <= k < cands.len() && cands[k] == ka;
                    if k < cands0.len() {
                        assert(cands0[k] == ka);
                    }
                }
            }
        }
    }
    assert forall|a: (int, int)|
        in_grid(rows, cols, a) && before(a, npos) && #[trigger] w.fixed(a) is None implies best <= w.option_count(a) by {
        if a != pos {
            assert(best0 <= w.option_count(a));
        }
    }
    assert(in_grid(rows, cols, pos) && before(pos, npos) && w.fixed(pos) is None);
    if cnt > best0 {
        if !(exists|a: (int, int)| in_grid(rows, cols, a) && before(a, pos) && #[trigger] w.fixed(a) is None) {
            assert(best0 == usize::MAX);
            lemma_count_true_bound(w.opts(pos));
            assert(false);
        }
        let b = choose|a: (int, int)| in_grid(rows, cols, a) && before(a, pos) && #[trigger] w.fixed(a) is None && w.option_count(a) == best0;
        assert(before(b, npos));
    }
}

proof fn lemma_min_scan_row(w: WfcGrid, best: usize, cands: Seq<(usize, usize)>, r: int)
    requires
        w.wf(),
        min_scan_state(w, best, cands, (r, w.cols as int)),
    ensures
        min_scan_state(w, best, cands, (r + 1, 0)),
{
    let rows = w.rows as int;
    let cols = w.cols as int;
    assert forall|a: (int, int)| in_grid(rows, cols, a) implies (before(a, (r + 1, 0)) <==> before(a, (r, cols))) by {}
    if exists|a: (int, int)| in_grid(rows, cols, a) && before(a, (r + 1, 0)) && #[trigger] w.fixed(a) is None {
        let a = choose|a: (int, int)| in_grid(rows, cols, a) && before(a, (r + 1, 0)) && #[trigger] w.fixed(a) is None;
        assert(before(a, (r, cols)));
    }
    if exists|a: (int, int)| in_grid(rows, cols, a) && before(a, (r, cols)) && #[trigger] w.fixed(a) is None && w.option_count(a) == best {
        let a = choose|a: (int, int)| in_grid(rows, cols, a) && before(a, (r, cols)) && #[trigger] w.fixed(a) is None && w.option_count(a) == best;
        assert(before(a, (r + 1, 0)));
    }
}

/// Among the unfixed cells there is one with the fewest possible tiles.
proof fn lemma_min_exists(w: WfcGrid, a: (int, int))
    requires
        w.wf(),
        in_grid(w.rows as int, w.cols as int, a),
        w.fixed(a) is None,
    ensures
        exists|b: (int, int)| #[trigger] w.is_min_entropy(b),
    decreases w.option_count(a),
{
    if !w.is_min_entropy(a) {
        let b = choose|b: (int, int)|
            in_grid(w.rows as int, w.cols as int, b) && (#[trigger] w.fixed(b)) is None && !(w.option_count(a) <= w.option_count(b));
        lemma_min_exists(w, b);
    }
}

/// The neighbour of `a` across its edge `d` (0 north, 1 east, 2 south, 3 west).
pub open spec fn toward(a: (int, int), d: int) -> (int, int) {
    if d == 0 {
        (a.0 - 1, a.1)
    } else if d == 1 {
        (a.0, a.1 + 1)
    } else if d == 2 {
        (a.0 + 1, a.1)
    } else {
        (a.0, a.1 - 1)
    }
}

/// The edge facing back.
pub open spec fn opposite(d: int) -> int {
    if d < 2 {
        d + 2
    } else {
        d - 2
    }
}

/// Tile `j`, placed across edge `d` of a cell whose possible tiles are
/// `src`, meets a possible tile of that cell with a matching edge.
pub open spec fn supports(tiles: Seq<WfcTile>, src: Seq<bool>, d: int, j: int) -> bool {
    exists|i: int| 0 <= i < src.len() && #[trigger] src[i] && tiles[i].edges@[d] == tiles[j].edges@[opposite(d)]
}

impl WfcGrid {
    /// Same shape and the same fixed cells.
    pub open spec fn same_frame(&self, other: WfcGrid) -> bool {
        &&& self.rows == other.rows
        &&& self.cols == other.cols
        &&& self.n == other.n
        &&& self.collapsed@ == other.collapsed@
    }
}

/// What propagation keeps, measured against the grid `base` it started
/// from: the shape, only removals, fixed cells untouched, and every removed
/// tile unsupported by some neighbour.
spec fn prop_sound(base: WfcGrid, w: WfcGrid, tiles: Seq<WfcTile>, start: (int, int)) -> bool {
    &&& base.wf()
    &&& w.wf()
    &&& w.same_frame(base)
    &&& forall|a: (int, int), i: int|
        in_grid(w.rows as int, w.cols as int, a) && 0 <= i < w.n && #[trigger] w.opts(a)[i] ==> base.opts(a)[i]
    &&& forall|a: (int, int)|
        in_grid(w.rows as int, w.cols as int, a) && (#[trigger] w.fixed(a)) is Some ==> w.opts(a) == base.opts(a)
    &&& forall|a: (int, int), i: int|
        in_grid(w.rows as int, w.cols as int, a) && 0 <= i < w.n && base.opts(a)[i] && !#[trigger] w.opts(a)[i]
            ==> exists|e: int|
            0 <= e < 4 && in_grid(w.rows as int, w.cols as int, #[trigger] toward(a, e)) && touched(base, w, start, toward(a, e))
                && !supports(tiles, w.opts(toward(a, e)), opposite(e), i)
}

/// A cell whose possible tiles changed, or the start cell.
spec fn touched(base: WfcGrid, w: WfcGrid, start: (int, int), p: (int, int)) -> bool {
    p == start || w.opts(p) != base.opts(p)
}

/// Every touched cell outside the queue has its unfixed neighbours'
/// tiles supported, except the cell `cur` for the directions from `upto` on.
spec fn prop_complete(
    base: WfcGrid,
    w: WfcGrid,
    tiles: Seq<WfcTile>,
    start: (int, int),
    queue: Seq<(usize, usize)>,
    cur: (int, int),
    upto: int,
) -> bool {
    forall|q: (int, int), d: int, j: int|
        in_grid(w.rows as int, w.cols as int, q) && touched(base, w, start, q) && !queue.contains(
            (q.0 as usize, q.1 as usize),
        ) && (q != cur || d < upto) && 0 <= d < 4 && in_grid(w.rows as int, w.cols as int, toward(q, d))
            && w.fixed(toward(q, d)) is None && 0 <= j < w.n && #[trigger] w.opts(toward(q, d))[j] ==> supports(
            tiles,
            w.opts(q),
            d,
            j,
        )
}

proof fn lemma_supports_mono(tiles: Seq<WfcTile>, a: Seq<bool>, b: Seq<bool>, d: int, j: int)
    requires
        a.len() == b.len(),
        forall|i: int| 0 <= i < a.len() && #[trigger] a[i] ==> b[i],
        supports(tiles, a, d, j),
    ensures
        supports(tiles, b, d, j),
{
    let i = choose|i: int| 0 <= i < a.len() && #[trigger] a[i] && tiles[i].edges@[d] == tiles[j].edges@[opposite(d)];
    assert(b[i]);
}

impl WfcGrid {
    /// Which edge values (0, 1) a possible tile of `(pr, pc)` shows on edge `d`.
    fn edge_values(&self, pr: usize, pc: usize, d: usize, tiles: &[WfcTile]) -> (allowed: [bool; 2])
        requires
            self.wf(),
            pr < self.rows,
            pc < self.cols,
            d < 4,
            tiles@.len() == self.n,
            tiles_wf(tiles@),
        ensures
            forall|v: int|
                0 <= v < 2 ==> (allowed@[v] <==> exists|i: int|
                    0 <= i < self.n && #[trigger] self.opts((pr as int, pc as int))[i] && tiles@[i].edges@[d as int] == v),
    {
        let ghost a = (pr as int, pc as int);
        let mut allowed = [false; 2];
        let mut i: usize = 0;
        proof {
            assert(self.opts(a).len() == self.n);
        }
        while i < self.n
            invariant
                self.wf(),
                pr < self.rows,
                pc < self.cols,
                d < 4,
                a == (pr as int, pc as int),
                self.opts(a).len() == self.n,
                tiles@.len() == self.n,
                tiles_wf(tiles@),
                i <= self.n,
                allowed@.len() == 2,
                forall|v: int|
                    0 <= v < 2 ==> (allowed@[v] <==> exists|k: int|
                        0 <= k < i && #[trigger] self.opts(a)[k] && tiles@[k].edges@[d as int] == v),
            decreases self.n - i,
        {
            if self.possible[pr][pc][i] {
                let e = tiles[i].edges[d];
                proof {
                    assert(tiles@[i as int].edges@[d as int] <= 1);
                }
                allowed[e as usize] = true;
            }
            proof {
                assert forall|v: int| 0 <= v < 2 implies (allowed@[v] <==> exists|k: int|
                    0 <= k < i + 1 && #[trigger] self.opts(a)[k] && tiles@[k].edges@[d as int] == v) by {
                    if exists|k: int| 0 <= k < i + 1 && #[trigger] self.opts(a)[k] && tiles@[k].edges@[d as int] == v {
                        let k = choose|k: int| 0 <= k < i + 1 && #[trigger] self.opts(a)[k] && tiles@[k].edges@[d as int] == v;
                        if k < i {
                            assert(exists|k2: int| 0 <= k2 < i && #[trigger] self.opts(a)[k2] && tiles@[k2].edges@[d as int] == v);
                        }
                    }
                    if allowed@[v] && !(self.opts(a)[i as int] && tiles@[i as int].edges@[d as int] == v) {
                        let k = choose|k: int| 0 <= k < i && #[trigger] self.opts(a)[k] && tiles@[k].edges@[d as int] == v;
                        assert(0 <= k < i + 1);
                    }
                }
            }
            i = i + 1;
        }
        allowed
    }

    /// Removes from `(nr, nc)` every tile whose edge `e` shows a value not
    /// allowed; tells whether anything was removed.
    fn prune(&mut self, nr: usize, nc: usize, e: usize, allowed: [bool; 2], tiles: &[WfcTile]) -> (changed: bool)
        requires
            old(self).wf(),
            nr < old(self).rows,
            nc < old(self).cols,
            e < 4,
            tiles@.len() == old(self).n,
            tiles_wf(tiles@),
        ensures
            final(self).wf(),
            final(self).same_frame(*old(self)),
            forall|i: int|
                0 <= i < final(self).n ==> #[trigger] final(self).opts((nr as int, nc as int))[i] == (old(self).opts(
                    (nr as int, nc as int),
                )[i] && allowed@[tiles@[i].edges@[e as int] as int]),
            forall|a: (int, int)|
                in_grid(final(self).rows as int, final(self).cols as int, a) && a != (nr as int, nc as int)
                    ==> #[trigger] final(self).opts(a) == old(self).opts(a),
            changed <==> exists|i: int|
                0 <= i < old(self).n && #[trigger] old(self).opts((nr as int, nc as int))[i] && !allowed@[tiles@[i].edges@[e as int] as int],
            changed ==> grid_flags(final(self).possible@) < grid_flags(old(self).possible@),
            !changed ==> *final(self) == *old(self),
    {
        let ghost x = (nr as int, nc as int);
        let ghost w0 = *self;
        let mut changed = false;
        let mut i: usize = 0;
        proof {
            assert(self.opts(x).len() == self.n);
        }
        while i < self.n
            invariant
                self.wf(),
                self.same_frame(w0),
                w0.wf(),
                nr < self.rows,
                nc < self.cols,
                e < 4,
                x == (nr as int, nc as int),
                tiles@.len() == self.n,
                tiles_wf(tiles@),
                i <= self.n,
                forall|k: int|
                    0 <= k < self.n ==> #[trigger] self.opts(x)[k] == if k < i {
                        w0.opts(x)[k] && allowed@[tiles@[k].edges@[e as int] as int]
                    } else {
                        w0.opts(x)[k]
                    },
                forall|a: (int, int)| in_grid(self.rows as int, self.cols as int, a) && a != x ==> #[trigger] self.opts(a) == w0.opts(a),
                forall|r: int, c: int|
                    0 <= r < self.rows && 0 <= c < self.cols && (r, c) != x ==> (#[trigger] self.possible@[r]@[c])@ == w0.possible@[r]@[c]@,
                changed <==> exists|k: int|
                    0 <= k < i && #[trigger] w0.opts(x)[k] && !allowed@[tiles@[k].edges@[e as int] as int],
                !changed ==> *self == w0,
            decreases self.n - i,
        {
            let v = tiles[i].edges[e];
            proof {
                assert(tiles@[i as int].edges@[e as int] <= 1);
                assert(self.opts(x).len() == self.n);
            }
            if self.possible[nr][nc][i] && !allowed[v as usize] {
                let ghost before_set = *self;
                self.possible[nr][nc].set(i, false);
                changed = true;
                proof {
                    assert(self.possible@[nr as int]@[nc as int]@ == before_set.possible@[nr as int]@[nc as int]@.update(i as int, false));
                    assert(self.possible@.len() == self.rows);
                    assert(self.collapsed@ == before_set.collapsed@);
                    assert forall|r: int| 0 <= r < self.rows implies (#[trigger] self.possible@[r])@.len() == self.cols by {
                        assert(before_set.possible@[r]@.len() == self.cols);
                    }
                    assert forall|a: (int, int)| in_grid(self.rows as int, self.cols as int, a) implies (#[trigger] self.opts(a)).len() == self.n by {
                        assert(before_set.opts(a).len() == self.n);
                    }
                    assert forall|a: (int, int)| in_grid(self.rows as int, self.cols as int, a) && a != x implies #[trigger] self.opts(a)
                        == w0.opts(a) by {
                        assert(self.opts(a) == before_set.opts(a));
                    }
                    assert forall|r: int, c: int|
                        0 <= r < self.rows && 0 <= c < self.cols && (r, c) != x implies (#[trigger] self.possible@[r]@[c])@ == w0.possible@[r]@[c]@ by {
                        assert(self.possible@[r]@[c]@ == before_set.possible@[r]@[c]@);
                    }
                    assert forall|a: (int, int)| in_grid(self.rows as int, self.cols as int, a) && (#[trigger] self.fixed(a)) is Some
                        implies self.fixed(a)->0 < self.n by {
                        assert(self.fixed(a) == before_set.fixed(a));
                    }
                }
            }
            proof {
                assert forall|k: int| 0 <= k < i + 1 && #[trigger] w0.opts(x)[k] && !allowed@[tiles@[k].edges@[e as int] as int]
                    implies changed by {}
            }
            i = i + 1;
        }
        proof {
            if changed {
                let a_row = w0.possible@[nr as int]@;
                let b_row = self.possible@[nr as int]@;
                assert(self.opts(x).len() == w0.opts(x).len());
                let k = choose|k: int| 0 <= k < i && #[trigger] w0.opts(x)[k] && !allowed@[tiles@[k].edges@[e as int] as int];
                assert(!self.opts(x)[k]);
                lemma_count_true_subset(self.opts(x), w0.opts(x));
                assert(count_true(self.opts(x)) < count_true(w0.opts(x)));
                assert forall|c: int| 0 <= c < a_row.len() && c != nc implies (#[trigger] a_row[c])@ == b_row[c]@ by {
                    assert(self.possible@[nr as int]@[c]@ == w0.possible@[nr as int]@[c]@);
                }
                lemma_row_flags_change(a_row, b_row, nc as int);
                assert(row_flags(b_row) < row_flags(a_row));
                assert forall|r: int, c: int|
                    0 <= r < w0.possible@.len() && r != nr && 0 <= c < w0.possible@[r]@.len() implies (#[trigger] w0.possible@[r]@[c])@
                        == self.possible@[r]@[c]@ by {
                    assert(self.possible@[r]@[c]@ == w0.possible@[r]@[c]@);
                }
                assert forall|r: int| 0 <= r < w0.possible@.len() implies (#[trigger] w0.possible@[r])@.len() == self.possible@[r]@.len() by {
                    assert(w0.possible@[r]@.len() == w0.cols);
                }
                lemma_grid_flags_change(w0.possible@, self.possible@, nr as int);
            }
        }
        changed
    }
}

/// Queued cells lie in the grid and are touched.
spec fn queue_ok(base: WfcGrid, w: WfcGrid, start: (int, int), queue: Seq<(usize, usize)>) -> bool {
    forall|k: int|
        0 <= k < queue.len() ==> in_grid(w.rows as int, w.cols as int, (#[trigger] queue[k].0 as int, queue[k].1 as int))
            && touched(base, w, start, (queue[k].0 as int, queue[k].1 as int))
}

impl WfcGrid {
    /// Restricts the unfixed neighbour of `(pr, pc)` across edge `d` to the
    /// tiles that match some possible tile of `(pr, pc)`, queueing it when
    /// it lost tiles.
    fn relax(
        &mut self,
        pr: usize,
        pc: usize,
        d: usize,
        tiles: &[WfcTile],
        queue: &mut VecDeque<(usize, usize)>,
        Ghost(base): Ghost<WfcGrid>,
        Ghost(start): Ghost<(int, int)>,
    )
        requires
            prop_sound(base, *old(self), tiles@, start),
            tiles_wf(tiles@),
            tiles@.len() == old(self).n,
            pr < old(self).rows,
            pc < old(self).cols,
            d < 4,
            prop_complete(base, *old(self), tiles@, start, old(queue)@, (pr as int, pc as int), d as int),
            queue_ok(base, *old(self), start, old(queue)@),
            touched(base, *old(self), start, (pr as int, pc as int)),
        ensures
            prop_sound(base, *final(self), tiles@, start),
            prop_complete(base, *final(self), tiles@, start, final(queue)@, (pr as int, pc as int), d + 1),
            queue_ok(base, *final(self), start, final(queue)@),
            final(self).opts((pr as int, pc as int)) == old(self).opts((pr as int, pc as int)),
            forall|a: (int, int), j: int|
                in_grid(old(self).rows as int, old(self).cols as int, a) && 0 <= j < old(self).n && old(self).opts(a)[j]
                    && !#[trigger] final(self).opts(a)[j] ==> a == toward((pr as int, pc as int), d as int) && final(self).fixed(a) is None
                    && !supports(tiles@, old(self).opts((pr as int, pc as int)), d as int, j),
            (final(queue)@ == old(queue)@ && *final(self) == *old(self)) || (final(queue)@.len() == old(queue)@.len() + 1
                && final(queue)@.subrange(0, old(queue)@.len() as int) == old(queue)@ && grid_flags(final(self).possible@)
                < grid_flags(old(self).possible@)),
    {
        let ghost w0 = *self;
        let ghost q0 = queue@;
        let ghost p = (pr as int, pc as int);
        let ghost di = d as int;
        if (d == 0 && pr == 0) || (d == 1 && pc + 1 >= self.cols) || (d == 2 && pr + 1 >= self.rows) || (d == 3 && pc == 0) {
            proof {
                assert(!in_grid(self.rows as int, self.cols as int, toward(p, di)));
            }
            return;
        }
        let nr = if d == 0 { pr - 1 } else if d == 2 { pr + 1 } else { pr };
        let nc = if d == 1 { pc + 1 } else if d == 3 { pc - 1 } else { pc };
        let ghost x = (nr as int, nc as int);
        proof {
            assert(toward(p, di) == x);
        }
        if self.collapsed[nr][nc].is_some() {
            return;
        }
        let opp: usize = if d < 2 { d + 2 } else { d - 2 };
        let allowed = self.edge_values(pr, pc, d, tiles);
        let changed = self.prune(nr, nc, opp, allowed, tiles);
        proof {
            assert(toward(x, opp as int) == p);
            assert(opposite(opp as int) == di);
            assert(w0.opts(x).len() == w0.n);
            assert(w0.opts(p).len() == w0.n);
            // tiles kept at x are supported by p, tiles dropped are not
            assert forall|j: int| 0 <= j < w0.n implies (#[trigger] self.opts(x)[j] <==> (w0.opts(x)[j] && supports(
                tiles@,
                w0.opts(p),
                di,
                j,
            ))) by {
                let v = tiles@[j].edges@[opp as int] as int;
                assert(tiles@[j].edges@[opp as int] <= 1);
                if supports(tiles@, w0.opts(p), di, j) {
                    let i = choose|i: int|
                        0 <= i < w0.opts(p).len() && #[trigger] w0.opts(p)[i] && tiles@[i].edges@[di] == tiles@[j].edges@[opposite(di)];
                    assert(allowed@[v]);
                }
                if allowed@[v] {
                    let i = choose|i: int| 0 <= i < w0.n && #[trigger] w0.opts(p)[i] && tiles@[i].edges@[di] == v;
                    assert(w0.opts(p)[i] && tiles@[i].edges@[di] == tiles@[j].edges@[opposite(di)]);
                }
            }
        }
        if changed {
            queue.push_back((nr, nc));
            proof {
                lemma_relax_changed(base, w0, *self, tiles@, start, q0, queue@, p, di, x, opp as int);
            }
        } else {
            proof {
                assert forall|q: (int, int), e: int, j: int|
                    in_grid(self.rows as int, self.cols as int, q) && touched(base, *self, start, q) && !queue@.contains(
                        (q.0 as usize, q.1 as usize),
                    ) && (q != p || e < di + 1) && 0 <= e < 4 && in_grid(self.rows as int, self.cols as int, toward(q, e))
                        && self.fixed(toward(q, e)) is None && 0 <= j < self.n && #[trigger] self.opts(toward(q, e))[j] implies supports(
                        tiles@,
                        self.opts(q),
                        e,
                        j,
                    ) by {
                    if q == p && e == di {
                    }
                }
            }
        }
    }
}

proof fn lemma_relax_changed(
    base: WfcGrid,
    w0: WfcGrid,
    w: WfcGrid,
    tiles: Seq<WfcTile>,
    start: (int, int),
    q0: Seq<(usize, usize)>,
    q: Seq<(usize, usize)>,
    p: (int, int),
    d: int,
    x: (int, int),
    opp: int,
)
    requires
        prop_sound(base, w0, tiles, start),
        prop_complete(base, w0, tiles, start, q0, p, d),
        touched(base, w0, start, p),
        queue_ok(base, w0, start, q0),
        in_grid(w0.rows as int, w0.cols as int, p),
        in_grid(w0.rows as int, w0.cols as int, x),
        0 <= d < 4,
        toward(p, d) == x,
        toward(x, opp) == p,
        opposite(opp) == d,
        opposite(d) == opp,
        w0.fixed(x) is None,
        w.wf(),
        w.same_frame(w0),
        forall|j: int| 0 <= j < w0.n ==> (#[trigger] w.opts(x)[j] <==> (w0.opts(x)[j] && supports(tiles, w0.opts(p), d, j))),
        forall|a: (int, int)| in_grid(w.rows as int, w.cols as int, a) && a != x ==> #[trigger] w.opts(a) == w0.opts(a),
        exists|j: int| 0 <= j < w0.n && #[trigger] w0.opts(x)[j] && !w.opts(x)[j],
        q == q0.push((x.0 as usize, x.1 as usize)),
    ensures
        prop_sound(base, w, tiles, start),
        prop_complete(base, w, tiles, start, q, p, d + 1),
        queue_ok(base, w, start, q),
        w.opts(p) == w0.opts(p),
{
    let rows = w.rows as int;
    let cols = w.cols as int;
    assert(p != x);
    assert(w.opts(x).len() == w0.n && w0.opts(x).len() == w0.n && base.opts(x).len() == w0.n) by {
        assert(w.opts(x).len() == w.n);
        assert(w0.opts(x).len() == w0.n);
        assert(base.opts(x).len() == base.n);
    }
    let jr = choose|j: int| 0 <= j < w0.n && #[trigger] w0.opts(x)[j] && !w.opts(x)[j];
    assert(base.opts(x)[jr]);
    assert(w.opts(x) != base.opts(x));
    // soundness
    assert forall|a: (int, int), i: int|
        in_grid(rows, cols, a) && 0 <= i < w.n && #[trigger] w.opts(a)[i] implies base.opts(a)[i] by {
        if a == x {
            assert(w0.opts(a)[i]);
        } else {
            assert(w0.opts(a)[i]);
        }
    }
    assert forall|a: (int, int)| in_grid(rows, cols, a) && (#[trigger] w.fixed(a)) is Some implies w.opts(a) == base.opts(a) by {
        assert(w0.fixed(a) is Some);
    }
    assert forall|a: (int, int), i: int|
        in_grid(rows, cols, a) && 0 <= i < w.n && base.opts(a)[i] && !#[trigger] w.opts(a)[i] implies exists|e: int|
        0 <= e < 4 && in_grid(rows, cols, #[trigger] toward(a, e)) && touched(base, w, start, toward(a, e)) && !supports(
            tiles,
            w.opts(toward(a, e)),
            opposite(e),
            i,
        ) by {
        if a == x && w0.opts(a)[i] {
            assert(!supports(tiles, w0.opts(p), d, i));
            assert(in_grid(rows, cols, toward(x, opp)));
            assert(!supports(tiles, w.opts(toward(x, opp)), opposite(opp), i));
            assert(touched(base, w, start, toward(x, opp)));
        } else {
            assert(!w0.opts(a)[i]);
            let e = choose|e: int|
                0 <= e < 4 && in_grid(rows, cols, #[trigger] toward(a, e)) && touched(base, w0, start, toward(a, e)) && !supports(
                    tiles,
                    w0.opts(toward(a, e)),
                    opposite(e),
                    i,
                );
            let y = toward(a, e);
            if y != x {
                assert(w.opts(y) == w0.opts(y));
            }
            assert(touched(base, w, start, y));
            if supports(tiles, w.opts(y), opposite(e), i) {
                assert(w.opts(y).len() == w.n);
                assert(w0.opts(y).len() == w0.n);
                assert forall|k: int| 0 <= k < w.opts(y).len() && #[trigger] w.opts(y)[k] implies w0.opts(y)[k] by {
                    if y == x {
                    }
                }
                lemma_supports_mono(tiles, w.opts(y), w0.opts(y), opposite(e), i);
            }
        }
    }
    // completeness
    assert forall|qq: (int, int), e: int, j: int|
        in_grid(rows, cols, qq) && touched(base, w, start, qq) && !q.contains((qq.0 as usize, qq.1 as usize)) && (qq != p
            || e < d + 1) && 0 <= e < 4 && in_grid(rows, cols, toward(qq, e)) && w.fixed(toward(qq, e)) is None && 0 <= j
            < w.n && #[trigger] w.opts(toward(qq, e))[j] implies supports(tiles, w.opts(qq), e, j) by {
        let y = toward(qq, e);
        if qq == p && e == d {
            assert(y == x);
        } else {
            if qq == x {
                assert(q[q.len() - 1] == (x.0 as usize, x.1 as usize));
            }
            assert(qq != x);
            assert(w.opts(qq) == w0.opts(qq));
            assert(!q0.contains((qq.0 as usize, qq.1 as usize))) by {
                if q0.contains((qq.0 as usize, qq.1 as usize)) {
                    let k = choose|k: int| 0 <= k < q0.len() && q0[k] == (qq.0 as usize, qq.1 as usize);
                    assert(q[k] == q0[k]);
                }
            }
            assert(w0.opts(y)[j]);
            assert(w0.fixed(y) is None);
        }
    }
    assert forall|k: int| 0 <= k < q.len() implies in_grid(rows, cols, (#[trigger] q[k].0 as int, q[k].1 as int))
        && touched(base, w, start, (q[k].0 as int, q[k].1 as int)) by {
        if k < q0.len() {
            assert(q[k] == q0[k]);
            let a = (q[k].0 as int, q[k].1 as int);
            assert(touched(base, w0, start, a));
            if a == x {
            } else {
                assert(w.opts(a) == w0.opts(a));
            }
        }
    }
}

/// Every tile that `v` keeps possible anywhere is possible in `w` too.
pub open spec fn keeps_within(v: WfcGrid, w: WfcGrid) -> bool {
    forall|a: (int, int), i: int|
        in_grid(w.rows as int, w.cols as int, a) && 0 <= i < w.n && #[trigger] v.opts(a)[i] ==> w.opts(a)[i]
}

/// `v` is a state that fixing cell `(r, c)` of `w0` to tile `chosen` could
/// settle on: the same shape, the fixed cells of `w0` and `(r, c)` fixed to
/// `chosen`, at `(r, c)` no tile but `chosen`, elsewhere only tiles of `w0`,
/// and around `(r, c)` and every cell whose tiles it changed, each unfixed
/// neighbour keeps only tiles that match a tile of that cell.
pub open spec fn collapse_admits(w0: WfcGrid, v: WfcGrid, r: int, c: int, chosen: int, tiles: Seq<WfcTile>) -> bool {
    let rows = w0.rows as int;
    let cols = w0.cols as int;
    &&& v.wf()
    &&& v.rows == w0.rows && v.cols == w0.cols && v.n == w0.n
    &&& forall|a: (int, int)|
        in_grid(rows, cols, a) ==> #[trigger] v.fixed(a) == if a == (r, c) {
            Some(chosen as usize)
        } else {
            w0.fixed(a)
        }
    &&& forall|i: int| 0 <= i < w0.n && #[trigger] v.opts((r, c))[i] ==> i == chosen
    &&& forall|a: (int, int), i: int|
        in_grid(rows, cols, a) && a != (r, c) && 0 <= i < w0.n && #[trigger] v.opts(a)[i] ==> w0.opts(a)[i]
    &&& forall|p: (int, int), d: int, j: int|
        in_grid(rows, cols, p) && (p == (r, c) || v.opts(p) != w0.opts(p)) && 0 <= d < 4 && in_grid(rows, cols, toward(p, d))
            && v.fixed(toward(p, d)) is None && 0 <= j < w0.n && #[trigger] v.opts(toward(p, d))[j] ==> supports(
            tiles,
            v.opts(p),
            d,
            j,
        )
}

/// `base` is `w0` with `start` fixed to `chosen` and that tile alone possible there.
spec fn fixed_start(w0: WfcGrid, base: WfcGrid, start: (int, int), chosen: int) -> bool {
    &&& base.rows == w0.rows && base.cols == w0.cols && base.n == w0.n
    &&& forall|a: (int, int)|
        in_grid(w0.rows as int, w0.cols as int, a) ==> #[trigger] base.fixed(a) == if a == start {
            Some(chosen as usize)
        } else {
            w0.fixed(a)
        }
    &&& forall|a: (int, int)| in_grid(w0.rows as int, w0.cols as int, a) && a != start ==> #[trigger] base.opts(a) == w0.opts(a)
    &&& forall|i: int| 0 <= i < w0.n ==> #[trigger] base.opts(start)[i] == (i == chosen)
}

/// One relaxation step from `p` across edge `d` removes no tile that an
/// admissible state keeps.
proof fn lemma_admitted_stay(
    w0: WfcGrid,
    base: WfcGrid,
    wold: WfcGrid,
    wnew: WfcGrid,
    v: WfcGrid,
    tiles: Seq<WfcTile>,
    start: (int, int),
    chosen: int,
    p: (int, int),
    d: int,
)
    requires
        collapse_admits(w0, v, start.0, start.1, chosen, tiles),
        fixed_start(w0, base, start, chosen),
        prop_sound(base, wold, tiles, start),
        prop_sound(base, wnew, tiles, start),
        keeps_within(v, wold),
        in_grid(wold.rows as int, wold.cols as int, p),
        touched(base, wold, start, p),
        0 <= d < 4,
        forall|a: (int, int), j: int|
            in_grid(wold.rows as int, wold.cols as int, a) && 0 <= j < wold.n && wold.opts(a)[j] && !#[trigger] wnew.opts(a)[j]
                ==> a == toward(p, d) && wnew.fixed(a) is None && !supports(tiles, wold.opts(p), d, j),
    ensures
        keeps_within(v, wnew),
{
    let rows = w0.rows as int;
    let cols = w0.cols as int;
    assert(p == start || v.opts(p) != w0.opts(p)) by {
        if p != start {
            assert(wold.opts(p).len() == base.opts(p).len());
            if forall|k: int| 0 <= k < wold.n ==> wold.opts(p)[k] == base.opts(p)[k] {
                assert(wold.opts(p) =~= base.opts(p));
            }
            let k = choose|k: int| 0 <= k < wold.n && wold.opts(p)[k] != base.opts(p)[k];
            assert(base.opts(p)[k] && !wold.opts(p)[k]);
            assert(!v.opts(p)[k]);
            assert(w0.opts(p)[k]);
        }
    }
    assert forall|a: (int, int), i: int| in_grid(rows, cols, a) && 0 <= i < wnew.n && #[trigger] v.opts(a)[i] implies wnew.opts(a)[i] by {
        assert(wold.opts(a)[i]);
        if !wnew.opts(a)[i] {
            let x = toward(p, d);
            assert(a == x);
            assert(wnew.fixed(x) == base.fixed(x));
            assert(v.fixed(x) is None);
            assert(supports(tiles, v.opts(p), d, i));
            assert(v.opts(p).len() == wold.opts(p).len());
            assert forall|k: int| 0 <= k < v.opts(p).len() && #[trigger] v.opts(p)[k] implies wold.opts(p)[k] by {}
            lemma_supports_mono(tiles, v.opts(p), wold.opts(p), d, i);
        }
    }
}

/// What fixing cell `(r, c)` of `w0` to tile `chosen` and propagating
/// produced `w`: the cell is fixed with that single tile, other cells only
/// lose tiles (fixed ones none), every lost tile has a neighbour without a
/// matching tile, and around the fixed cell and every cell that lost tiles
/// each unfixed neighbour keeps only matching tiles; and `w` keeps every tile
/// that any state admitted by `collapse_admits` keeps, so it is the largest
/// such state and propagation removes only the tiles it must.
pub open spec fn collapse_result(w0: WfcGrid, w: WfcGrid, r: int, c: int, chosen: int, tiles: Seq<WfcTile>) -> bool {
    let rows = w0.rows as int;
    let cols = w0.cols as int;
    &&& w.wf()
    &&& w.rows == w0.rows && w.cols == w0.cols && w.n == w0.n
    &&& forall|a: (int, int)|
        in_grid(rows, cols, a) ==> #[trigger] w.fixed(a) == if a == (r, c) {
            Some(chosen as usize)
        } else {
            w0.fixed(a)
        }
    &&& forall|i: int| 0 <= i < w0.n ==> #[trigger] w.opts((r, c))[i] == (i == chosen)
    &&& forall|a: (int, int), i: int|
        in_grid(rows, cols, a) && a != (r, c) && 0 <= i < w0.n && #[trigger] w.opts(a)[i] ==> w0.opts(a)[i]
    &&& forall|a: (int, int)| in_grid(rows, cols, a) && a != (r, c) && (#[trigger] w0.fixed(a)) is Some ==> w.opts(a) == w0.opts(a)
    &&& forall|a: (int, int), i: int|
        in_grid(rows, cols, a) && a != (r, c) && 0 <= i < w0.n && w0.opts(a)[i] && !#[trigger] w.opts(a)[i] ==> exists|e: int|
            0 <= e < 4 && in_grid(rows, cols, #[trigger] toward(a, e)) && (toward(a, e) == (r, c) || w.opts(toward(a, e))
                != w0.opts(toward(a, e))) && !supports(tiles, w.opts(toward(a, e)), opposite(e), i)
    &&& forall|p: (int, int), d: int, j: int|
        in_grid(rows, cols, p) && (p == (r, c) || w.opts(p) != w0.opts(p)) && 0 <= d < 4 && in_grid(rows, cols, toward(p, d))
            && w.fixed(toward(p, d)) is None && 0 <= j < w0.n && #[trigger] w.opts(toward(p, d))[j] ==> supports(
            tiles,
            w.opts(p),
            d,
            j,
        )
    &&& forall|v: WfcGrid| #[trigger] collapse_admits(w0, v, r, c, chosen, tiles) ==> keeps_within(v, w)
}

impl WfcGrid {
    /// Fixes cell `(r, c)` to tile `chosen`, then propagates: every unfixed
    /// neighbour of a cell whose possible tiles changed loses the tiles that
    /// no longer match, until nothing changes.
    pub fn collapse(&mut self, r: usize, c: usize, chosen: usize, tiles: &[WfcTile])
        requires
            old(self).wf(),
            r < old(self).rows,
            c < old(self).cols,
            chosen < old(self).n,
            tiles@.len() == old(self).n,
            tiles_wf(tiles@),
        ensures
            collapse_result(*old(self), *final(self), r as int, c as int, chosen as int, tiles@),
    {
        let ghost w0 = *self;
        let ghost start = (r as int, c as int);
        self.collapsed[r].set(c, Some(chosen));
        proof {
            assert(self.possible@ == w0.possible@);
            assert forall|a: (int, int)| in_grid(self.rows as int, self.cols as int, a) implies (#[trigger] self.opts(a)).len() == self.n by {
                assert(self.opts(a) == w0.opts(a));
            }
            assert forall|row: int| 0 <= row < self.rows implies (#[trigger] self.possible@[row])@.len() == self.cols by {
                assert(w0.possible@[row]@.len() == self.cols);
            }
            assert forall|row: int| 0 <= row < self.rows implies (#[trigger] self.collapsed@[row])@.len() == self.cols by {
                assert(w0.collapsed@[row]@.len() == self.cols);
            }
            assert forall|a: (int, int)| in_grid(self.rows as int, self.cols as int, a) && (#[trigger] self.fixed(a)) is Some
                implies self.fixed(a)->0 < self.n by {
                if a != start {
                    assert(self.fixed(a) == w0.fixed(a));
                }
            }
        }
        let ghost w1 = *self;
        let mut i: usize = 0;
        proof {
            assert(self.opts(start).len() == self.n);
        }
        while i < self.n
            invariant
                self.wf(),
                self.same_frame(w1),
                w1.wf(),
                r < self.rows,
                c < self.cols,
                start == (r as int, c as int),
                i <= self.n,
                forall|k: int| 0 <= k < self.n ==> #[trigger] self.opts(start)[k] == if k < i { k == chosen } else { w1.opts(start)[k] },
                forall|a: (int, int)| in_grid(self.rows as int, self.cols as int, a) && a != start ==> #[trigger] self.opts(a) == w1.opts(a),
            decreases self.n - i,
        {
            let ghost before_set = *self;
            proof {
                assert(self.opts(start).len() == self.n);
            }
            self.possible[r][c].set(i, i == chosen);
            proof {
                assert(self.possible@[r as int]@[c as int]@ == before_set.possible@[r as int]@[c as int]@.update(i as int, i == chosen));
                assert forall|row: int| 0 <= row < self.rows implies (#[trigger] self.possible@[row])@.len() == self.cols by {
                    assert(before_set.possible@[row]@.len() == self.cols);
                }
                assert forall|a: (int, int)| in_grid(self.rows as int, self.cols as int, a) implies (#[trigger] self.opts(a)).len() == self.n by {
                    assert(before_set.opts(a).len() == self.n);
                }
                assert forall|a: (int, int)| in_grid(self.rows as int, self.cols as int, a) && a != start implies #[trigger] self.opts(a)
                    == w1.opts(a) by {
                    assert(self.opts(a) == before_set.opts(a));
                }
                assert forall|a: (int, int)| in_grid(self.rows as int, self.cols as int, a) && (#[trigger] self.fixed(a)) is Some
                    implies self.fixed(a)->0 < self.n by {
                    assert(self.fixed(a) == before_set.fixed(a));
                }
            }
            i = i + 1;
        }
        let ghost base = *self;
        let mut queue: VecDeque<(usize, usize)> = VecDeque::new();
        queue.push_back((r, c));
        proof {
            assert(fixed_start(w0, base, start, chosen as int)) by {
                assert forall|a: (int, int)| in_grid(w0.rows as int, w0.cols as int, a) && a != start implies #[trigger] base.opts(a) == w0.opts(a) by {
                    assert(w1.opts(a) == w0.opts(a));
                }
            }
            assert forall|v: WfcGrid| #[trigger] collapse_admits(w0, v, r as int, c as int, chosen as int, tiles@) implies keeps_within(v, base) by {
                assert forall|a: (int, int), k: int|
                    in_grid(base.rows as int, base.cols as int, a) && 0 <= k < base.n && #[trigger] v.opts(a)[k] implies base.opts(a)[k] by {
                    if a != start {
                        assert(w0.opts(a)[k]);
                    }
                }
            }
            assert(queue@[0] == (r, c));
            assert(prop_sound(base, *self, tiles@, start)) by {
                assert forall|a: (int, int), k: int|
                    in_grid(self.rows as int, self.cols as int, a) && 0 <= k < self.n && base.opts(a)[k] && !#[trigger] self.opts(a)[k]
                    implies exists|e: int|
                    0 <= e < 4 && in_grid(self.rows as int, self.cols as int, #[trigger] toward(a, e)) && touched(
                        base,
                        *self,
                        start,
                        toward(a, e),
                    ) && !supports(tiles@, self.opts(toward(a, e)), opposite(e), k) by {}
            }
            assert forall|q: (int, int), d: int, j: int|
                in_grid(self.rows as int, self.cols as int, q) && touched(base, *self, start, q) && !queue@.contains(
                    (q.0 as usize, q.1 as usize),
                ) && (q != (-1int, -1int) || d < 0) && 0 <= d < 4 && in_grid(self.rows as int, self.cols as int, toward(q, d))
                    && self.fixed(toward(q, d)) is None && 0 <= j < self.n && #[trigger] self.opts(toward(q, d))[j] implies supports(
                    tiles@,
                    self.opts(q),
                    d,
                    j,
                ) by {
                assert(q == start);
            }
        }
        while queue.len() > 0
            invariant
                prop_sound(base, *self, tiles@, start),
                tiles_wf(tiles@),
                tiles@.len() == self.n,
                base.fixed(start) == Some(chosen),
                in_grid(self.rows as int, self.cols as int, start),
                prop_complete(base, *self, tiles@, start, queue@, (-1, -1), 0),
                queue_ok(base, *self, start, queue@),
                fixed_start(w0, base, start, chosen as int),
                start == (r as int, c as int),
                forall|v: WfcGrid| #[trigger] collapse_admits(w0, v, r as int, c as int, chosen as int, tiles@) ==> keeps_within(v, *self),
            decreases grid_flags(self.possible@), queue@.len(),
        {
            let ghost q0 = queue@;
            let ghost flags0 = grid_flags(self.possible@);
            let (pr, pc) = queue.pop_front().unwrap();
            let ghost q1 = queue@;
            let ghost p = (pr as int, pc as int);
            proof {
                assert(q0[0] == (pr, pc));
                assert(q0 =~= seq![(pr, pc)].add(q1));
                assert(in_grid(self.rows as int, self.cols as int, (q0[0].0 as int, q0[0].1 as int)));
                assert(touched(base, *self, start, (q0[0].0 as int, q0[0].1 as int)));
                assert forall|k: int| 0 <= k < q1.len() implies in_grid(self.rows as int, self.cols as int, (#[trigger] q1[k].0 as int, q1[k].1 as int))
                    && touched(base, *self, start, (q1[k].0 as int, q1[k].1 as int)) by {
                    assert(q1[k] == q0[k + 1]);
                }
                assert forall|q: (int, int), d: int, j: int|
                    in_grid(self.rows as int, self.cols as int, q) && touched(base, *self, start, q) && !q1.contains(
                        (q.0 as usize, q.1 as usize),
                    ) && (q != p || d < 0) && 0 <= d < 4 && in_grid(self.rows as int, self.cols as int, toward(q, d))
                        && self.fixed(toward(q, d)) is None && 0 <= j < self.n && #[trigger] self.opts(toward(q, d))[j] implies supports(
                        tiles@,
                        self.opts(q),
                        d,
                        j,
                    ) by {
                    assert(!q0.contains((q.0 as usize, q.1 as usize))) by {
                        if q0.contains((q.0 as usize, q.1 as usize)) {
                            let k = choose|k: int| 0 <= k < q0.len() && q0[k] == (q.0 as usize, q.1 as usize);
                            if k == 0 {
                                assert(q == p);
                            } else {
                                assert(q1[k - 1] == q0[k]);
                            }
                        }
                    }
                }
            }
            let mut d: usize = 0;
            while d < 4
                invariant
                    prop_sound(base, *self, tiles@, start),
                    tiles_wf(tiles@),
                    tiles@.len() == self.n,
                    base.fixed(start) == Some(chosen),
                    in_grid(self.rows as int, self.cols as int, start),
                    pr < self.rows,
                    pc < self.cols,
                    p == (pr as int, pc as int),
                    touched(base, *self, start, p),
                    d <= 4,
                    prop_complete(base, *self, tiles@, start, queue@, p, d as int),
                    queue_ok(base, *self, start, queue@),
                    queue@.len() >= q1.len(),
                    queue@.len() == q1.len() ==> grid_flags(self.possible@) == flags0,
                    queue@.len() > q1.len() ==> grid_flags(self.possible@) < flags0,
                    fixed_start(w0, base, start, chosen as int),
                    start == (r as int, c as int),
                    forall|v: WfcGrid| #[trigger] collapse_admits(w0, v, r as int, c as int, chosen as int, tiles@) ==> keeps_within(v, *self),
                decreases 4 - d,
            {
                let ghost wold = *self;
                self.relax(pr, pc, d, tiles, &mut queue, Ghost(base), Ghost(start));
                proof {
                    assert forall|v: WfcGrid| #[trigger] collapse_admits(w0, v, r as int, c as int, chosen as int, tiles@) implies keeps_within(v, *self) by {
                        lemma_admitted_stay(w0, base, wold, *self, v, tiles@, start, chosen as int, p, d as int);
                    }
                }
                d = d + 1;
            }
            proof {
                assert forall|q: (int, int), e: int, j: int|
                    in_grid(self.rows as int, self.cols as int, q) && touched(base, *self, start, q) && !queue@.contains(
                        (q.0 as usize, q.1 as usize),
                    ) && (q != (-1int, -1int) || e < 0) && 0 <= e < 4 && in_grid(self.rows as int, self.cols as int, toward(q, e))
                        && self.fixed(toward(q, e)) is None && 0 <= j < self.n && #[trigger] self.opts(toward(q, e))[j] implies supports(
                        tiles@,
                        self.opts(q),
                        e,
                        j,
                    ) by {}
            }
        }
        proof {
            let rows = self.rows as int;
            let cols = self.cols as int;
            assert(self.fixed(start) == base.fixed(start));
            assert(self.opts(start) == base.opts(start));
            assert forall|a: (int, int), k: int|
                in_grid(rows, cols, a) && a != start && 0 <= k < self.n && #[trigger] self.opts(a)[k] implies w0.opts(a)[k] by {
                assert(base.opts(a) == w1.opts(a));
            }
            assert forall|a: (int, int)|
                in_grid(rows, cols, a) && a != start && (#[trigger] w0.fixed(a)) is Some implies self.opts(a) == w0.opts(a) by {
                assert(base.opts(a) == w1.opts(a));
                assert(self.fixed(a) == w0.fixed(a));
            }
            assert forall|a: (int, int), k: int|
                in_grid(rows, cols, a) && a != start && 0 <= k < self.n && w0.opts(a)[k] && !#[trigger] self.opts(a)[k]
                    implies exists|e: int|
                    0 <= e < 4 && in_grid(rows, cols, #[trigger] toward(a, e)) && (toward(a, e) == start || self.opts(
                        toward(a, e),
                    ) != w0.opts(toward(a, e))) && !supports(tiles@, self.opts(toward(a, e)), opposite(e), k) by {
                assert(base.opts(a) == w1.opts(a));
                let e = choose|e: int|
                    0 <= e < 4 && in_grid(rows, cols, #[trigger] toward(a, e)) && touched(base, *self, start, toward(a, e))
                        && !supports(tiles@, self.opts(toward(a, e)), opposite(e), k);
                let y = toward(a, e);
                if y != start {
                    assert(base.opts(y) == w1.opts(y));
                }
            }
            assert forall|q: (int, int), d: int, j: int|
                in_grid(rows, cols, q) && (q == start || self.opts(q) != w0.opts(q)) && 0 <= d < 4 && in_grid(rows, cols, toward(q, d))
                    && self.fixed(toward(q, d)) is None && 0 <= j < self.n && #[trigger] self.opts(toward(q, d))[j] implies supports(
                    tiles@,
                    self.opts(q),
                    d,
                    j,
                ) by {
                if q != start {
                    assert(base.opts(q) == w1.opts(q));
                }
                assert(!queue@.contains((q.0 as usize, q.1 as usize)));
            }
            assert(collapse_result(w0, *self, r as int, c as int, chosen as int, tiles@));
        }
    }
}

/// Fixing a cell and propagating has a single outcome: two grids that both
/// meet `collapse_result` for the same grid, cell and tile agree on every
/// cell's fixed tile and possible tiles.
pub proof fn lemma_collapse_result_unique(
    w0: WfcGrid,
    w1: WfcGrid,
    w2: WfcGrid,
    r: int,
    c: int,
    chosen: int,
    tiles: Seq<WfcTile>,
)
    requires
        w0.wf(),
        collapse_result(w0, w1, r, c, chosen, tiles),
        collapse_result(w0, w2, r, c, chosen, tiles),
    ensures
        forall|a: (int, int)|
            in_grid(w0.rows as int, w0.cols as int, a) ==> #[trigger] w1.opts(a) == w2.opts(a) && w1.fixed(a) == w2.fixed(a),
{
    assert(collapse_admits(w0, w1, r, c, chosen, tiles));
    assert(collapse_admits(w0, w2, r, c, chosen, tiles));
    assert(keeps_within(w1, w2));
    assert(keeps_within(w2, w1));
    assert forall|a: (int, int)| in_grid(w0.rows as int, w0.cols as int, a) implies #[trigger] w1.opts(a) == w2.opts(a)
        && w1.fixed(a) == w2.fixed(a) by {
        assert(w1.opts(a).len() == w2.opts(a).len());
        assert forall|i: int| 0 <= i < w1.opts(a).len() implies w1.opts(a)[i] == w2.opts(a)[i] by {
            if w1.opts(a)[i] {
                assert(w2.opts(a)[i]);
            }
            if w2.opts(a)[i] {
                assert(w1.opts(a)[i]);
            }
        }
        assert(w1.opts(a) =~= w2.opts(a));
    }
}

/// Tile `t2`, placed across edge `d` of tile `t1`, shows the same edge value.
pub open spec fn tiles_match(tiles: Seq<WfcTile>, t1: int, t2: int, d: int) -> bool {
    tiles[t1].edges@[d] == tiles[t2].edges@[opposite(d)]
}

/// Fixed cells keep exactly their tile possible; fixed neighbours carry
/// matching tiles; unfixed neighbours of a fixed cell keep only tiles that
/// match it.
pub open spec fn tiling_consistent(w: WfcGrid, tiles: Seq<WfcTile>) -> bool {
    let rows = w.rows as int;
    let cols = w.cols as int;
    &&& forall|p: (int, int), i: int|
        in_grid(rows, cols, p) && w.fixed(p) is Some && 0 <= i < w.n ==> (#[trigger] w.opts(p)[i] <==> i == w.fixed(p)->0)
    &&& forall|p: (int, int), d: int|
        in_grid(rows, cols, p) && 0 <= d < 4 && in_grid(rows, cols, #[trigger] toward(p, d)) && (#[trigger] w.fixed(p)) is Some
            ==> (w.fixed(toward(p, d)) is Some ==> tiles_match(tiles, w.fixed(p)->0 as int, w.fixed(toward(p, d))->0 as int, d))
            && (w.fixed(toward(p, d)) is None ==> forall|j: int|
            0 <= j < w.n && #[trigger] w.opts(toward(p, d))[j] ==> tiles_match(tiles, w.fixed(p)->0 as int, j, d))
}

proof fn lemma_toward_back(p: (int, int), d: int)
    requires
        0 <= d < 4,
    ensures
        toward(toward(p, d), opposite(d)) == p,
        0 <= opposite(d) < 4,
        opposite(opposite(d)) == d,
{
}

/// A grid without fixed cells is consistent.
pub proof fn lemma_unfixed_grid_consistent(w: WfcGrid, tiles: Seq<WfcTile>)
    requires
        forall|a: (int, int)| in_grid(w.rows as int, w.cols as int, a) ==> (#[trigger] w.fixed(a)) is None,
    ensures
        tiling_consistent(w, tiles),
{
}

/// Fixing an unfixed cell to one of its possible tiles keeps the tiling
/// consistent: tiles fixed next to each other always match.
pub proof fn lemma_collapse_keeps_consistency(
    w0: WfcGrid,
    w: WfcGrid,
    r: int,
    c: int,
    chosen: int,
    tiles: Seq<WfcTile>,
)
    requires
        w0.wf(),
        in_grid(w0.rows as int, w0.cols as int, (r, c)),
        0 <= chosen < w0.n,
        tiles.len() == w0.n,
        w0.fixed((r, c)) is None,
        w0.opts((r, c))[chosen],
        tiling_consistent(w0, tiles),
        collapse_result(w0, w, r, c, chosen, tiles),
    ensures
        tiling_consistent(w, tiles),
{
    let rows = w0.rows as int;
    let cols = w0.cols as int;
    let rc = (r, c);
    assert forall|p: (int, int), i: int|
        in_grid(rows, cols, p) && w.fixed(p) is Some && 0 <= i < w.n implies (#[trigger] w.opts(p)[i] <==> i == w.fixed(p)->0) by {
        if p != rc {
            assert(w0.fixed(p) is Some);
            assert(w.opts(p) == w0.opts(p));
        }
    }
    assert forall|p: (int, int), d: int|
        in_grid(rows, cols, p) && 0 <= d < 4 && in_grid(rows, cols, #[trigger] toward(p, d)) && (#[trigger] w.fixed(p)) is Some
            implies (w.fixed(toward(p, d)) is Some ==> tiles_match(tiles, w.fixed(p)->0 as int, w.fixed(toward(p, d))->0 as int, d))
            && (w.fixed(toward(p, d)) is None ==> forall|j: int|
            0 <= j < w.n && #[trigger] w.opts(toward(p, d))[j] ==> tiles_match(tiles, w.fixed(p)->0 as int, j, d)) by {
        let x = toward(p, d);
        lemma_toward_back(p, d);
        if p == rc {
            if w.fixed(x) is Some {
                assert(x != rc);
                assert(w0.fixed(x) is Some);
                assert(toward(x, opposite(d)) == rc);
                assert(w0.fixed(toward(x, opposite(d))) is None);
                assert(w0.opts(toward(x, opposite(d)))[chosen]);
                assert(tiles_match(tiles, w0.fixed(x)->0 as int, chosen, opposite(d)));
            } else {
                assert forall|j: int| 0 <= j < w.n && #[trigger] w.opts(x)[j] implies tiles_match(tiles, chosen, j, d) by {
                    assert(supports(tiles, w.opts(rc), d, j));
                    let i = choose|i: int|
                        0 <= i < w.opts(rc).len() && #[trigger] w.opts(rc)[i] && tiles[i].edges@[d] == tiles[j].edges@[opposite(d)];
                    assert(i == chosen);
                }
            }
        } else {
            assert(w0.fixed(p) is Some);
            assert(w.fixed(p) == w0.fixed(p));
            if w.fixed(x) is Some {
                if x == rc {
                    assert(w0.fixed(x) is None);
                    assert(w0.opts(x)[chosen]);
                } else {
                    assert(w0.fixed(x) is Some);
                }
            } else {
                assert(x != rc);
                assert forall|j: int| 0 <= j < w.n && #[trigger] w.opts(x)[j] implies tiles_match(tiles, w.fixed(p)->0 as int, j, d) by {
                    assert(w0.opts(x)[j]);
                }
            }
        }
    }
}

} // verus!
