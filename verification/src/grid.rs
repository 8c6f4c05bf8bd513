//! Shared vocabulary for rectangular boolean grids: cells, orthogonal
//! neighbours and walks through open (non-wall) cells.
use vstd::prelude::*;

verus! {

/// Every row of `g` has at least `cols` entries; the grid is read as
/// `g.len()` rows by `cols` columns.
pub open spec fn rows_cover(g: Seq<Vec<bool>>, cols: int) -> bool {
    forall|r: int| 0 <= r < g.len() ==> cols <= (#[trigger] g[r])@.len()
}

/// The same for grids of region labels.
pub open spec fn label_rows_cover(g: Seq<Vec<i32>>, cols: int) -> bool {
    forall|r: int| 0 <= r < g.len() ==> cols <= (#[trigger] g[r])@.len()
}

/// A grid with exactly `rows` rows of exactly `cols` entries each.
pub open spec fn is_rect(g: Seq<Vec<bool>>, rows: int, cols: int) -> bool {
    g.len() == rows && forall|r: int| 0 <= r < rows ==> (#[trigger] g[r])@.len() == cols
}

/// The cell lies inside a `rows` by `cols` grid.
pub open spec fn in_grid(rows: int, cols: int, a: (int, int)) -> bool {
    0 <= a.0 < rows && 0 <= a.1 < cols
}

/// Value of cell `a` (row, column) of a grid.
pub open spec fn cell(g: Seq<Vec<bool>>, a: (int, int)) -> bool {
    g[a.0]@[a.1]
}

/// The cell is inside the grid and is not a wall.
pub open spec fn is_open(g: Seq<Vec<bool>>, cols: int, a: (int, int)) -> bool {
    in_grid(g.len() as int, cols, a) && !cell(g, a)
}

/// Row-major order: `a` is scanned before `b`.
pub open spec fn before(a: (int, int), b: (int, int)) -> bool {
    a.0 < b.0 || (a.0 == b.0 && a.1 < b.1)
}

/// Orthogonal neighbours.
pub open spec fn adjacent(a: (int, int), b: (int, int)) -> bool {
    ||| (a.0 == b.0 && (a.1 == b.1 + 1 || b.1 == a.1 + 1))
    ||| (a.1 == b.1 && (a.0 == b.0 + 1 || b.0 == a.0 + 1))
}

/// A walk through open cells, each step to an orthogonal neighbour.
pub open spec fn is_open_walk(g: Seq<Vec<bool>>, cols: int, p: Seq<(int, int)>) -> bool {
    &&& p.len() >= 1
    &&& forall|k: int| 0 <= k < p.len() ==> is_open(g, cols, #[trigger] p[k])
    &&& forall|k: int| 0 <= k < p.len() - 1 ==> #[trigger] adjacent(p[k], p[k + 1])
}

/// Open cells `a` and `b` belong to the same 4-connected open region.
pub open spec fn connected(g: Seq<Vec<bool>>, cols: int, a: (int, int), b: (int, int)) -> bool {
    exists|p: Seq<(int, int)>| #[trigger] is_open_walk(g, cols, p) && p[0] == a && p.last() == b
}

pub proof fn lemma_connected_refl(g: Seq<Vec<bool>>, cols: int, a: (int, int))
    requires
        is_open(g, cols, a),
    ensures
        connected(g, cols, a, a),
{
    let p = seq![a];
    assert(is_open_walk(g, cols, p));
}

pub proof fn lemma_connected_extend(
    g: Seq<Vec<bool>>,
    cols: int,
    a: (int, int),
    b: (int, int),
    c: (int, int),
)
    requires
        connected(g, cols, a, b),
        adjacent(b, c),
        is_open(g, cols, c),
    ensures
        connected(g, cols, a, c),
{
    let p = choose|p: Seq<(int, int)>| #[trigger] is_open_walk(g, cols, p) && p[0] == a && p.last() == b;
    let q = p.push(c);
    assert forall|k: int| 0 <= k < q.len() - 1 implies #[trigger] adjacent(q[k], q[k + 1]) by {
        if k < p.len() - 1 {
            assert(adjacent(p[k], p[k + 1]));
        }
    }
    assert forall|k: int| 0 <= k < q.len() implies is_open(g, cols, #[trigger] q[k]) by {
        if k < p.len() {
            assert(q[k] == p[k]);
        }
    }
    assert(is_open_walk(g, cols, q));
}

pub proof fn lemma_connected_symm(g: Seq<Vec<bool>>, cols: int, a: (int, int), b: (int, int))
    requires
        connected(g, cols, a, b),
    ensures
        connected(g, cols, b, a),
{
    let p = choose|p: Seq<(int, int)>| #[trigger] is_open_walk(g, cols, p) && p[0] == a && p.last() == b;
    let q = p.reverse();
    assert forall|k: int| 0 <= k < q.len() - 1 implies #[trigger] adjacent(q[k], q[k + 1]) by {
        let j = p.len() - 2 - k;
        assert(adjacent(p[j], p[j + 1]));
    }
    assert forall|k: int| 0 <= k < q.len() implies is_open(g, cols, #[trigger] q[k]) by {
        assert(q[k] == p[p.len() - 1 - k]);
    }
    assert(is_open_walk(g, cols, q));
}

pub proof fn lemma_connected_trans(
    g: Seq<Vec<bool>>,
    cols: int,
    a: (int, int),
    b: (int, int),
    c: (int, int),
)
    requires
        connected(g, cols, a, b),
        connected(g, cols, b, c),
    ensures
        connected(g, cols, a, c),
{
    let p = choose|p: Seq<(int, int)>| #[trigger] is_open_walk(g, cols, p) && p[0] == a && p.last() == b;
    let r = choose|r: Seq<(int, int)>| #[trigger] is_open_walk(g, cols, r) && r[0] == b && r.last() == c;
    let q = p + r.drop_first();
    assert forall|k: int| 0 <= k < q.len() - 1 implies #[trigger] adjacent(q[k], q[k + 1]) by {
        if k < p.len() - 1 {
            assert(adjacent(p[k], p[k + 1]));
        } else {
            let j = k - (p.len() - 1);
            assert(adjacent(r[j], r[j + 1]));
        }
    }
    assert forall|k: int| 0 <= k < q.len() implies is_open(g, cols, #[trigger] q[k]) by {
        if k < p.len() {
            assert(q[k] == p[k]);
        } else {
            assert(q[k] == r[k - p.len() + 1]);
        }
    }
    assert(is_open_walk(g, cols, q));
}

pub proof fn lemma_connected_open(g: Seq<Vec<bool>>, cols: int, a: (int, int), b: (int, int))
    requires
        connected(g, cols, a, b),
    ensures
        is_open(g, cols, a),
        is_open(g, cols, b),
{
    let p = choose|p: Seq<(int, int)>| #[trigger] is_open_walk(g, cols, p) && p[0] == a && p.last() == b;
    assert(is_open(g, cols, p[0]));
    assert(is_open(g, cols, p[p.len() - 1]));
}

/// A set of cells that contains `a` and every open neighbour of its members
/// contains every cell connected to `a`.
pub proof fn lemma_closed_set_holds_region(
    g: Seq<Vec<bool>>,
    cols: int,
    member: spec_fn((int, int)) -> bool,
    a: (int, int),
    b: (int, int),
)
    requires
        member(a),
        connected(g, cols, a, b),
        forall|p: (int, int), q: (int, int)|
            #[trigger] member(p) && is_open(g, cols, p) && adjacent(p, q) && is_open(g, cols, q)
                ==> #[trigger] member(q),
    ensures
        member(b),
{
    let w = choose|w: Seq<(int, int)>| #[trigger] is_open_walk(g, cols, w) && w[0] == a && w.last() == b;
    lemma_closed_walk_prefix(g, cols, member, w, w.len() - 1);
}

pub proof fn lemma_closed_walk_prefix(
    g: Seq<Vec<bool>>,
    cols: int,
    member: spec_fn((int, int)) -> bool,
    w: Seq<(int, int)>,
    k: int,
)
    requires
        is_open_walk(g, cols, w),
        member(w[0]),
        0 <= k < w.len(),
        forall|p: (int, int), q: (int, int)|
            #[trigger] member(p) && is_open(g, cols, p) && adjacent(p, q) && is_open(g, cols, q)
                ==> #[trigger] member(q),
    ensures
        member(w[k]),
    decreases k,
{
    if k > 0 {
        lemma_closed_walk_prefix(g, cols, member, w, k - 1);
        let j = k - 1;
        assert(adjacent(w[j], w[j + 1]));
        assert(is_open(g, cols, w[j]));
        assert(is_open(g, cols, w[j + 1]));
    }
}

} // verus!
