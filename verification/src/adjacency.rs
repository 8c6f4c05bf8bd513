//! Which labelled regions face each other across a short straight run of
//! wall cells.
use vstd::prelude::*;
use crate::grid::{before, in_grid, label_rows_cover};
use crate::regions::lab;

verus! {

/// The cell `k` steps from `a` to the right (`d == 0`) or downwards (`d == 1`).
pub open spec fn step(a: (int, int), d: int, k: int) -> (int, int) {
    if d == 0 {
        (a.0, a.1 + k)
    } else {
        (a.0 + k, a.1)
    }
}

/// Going from the labelled cell `a` in direction `d`, the first `m` cells
/// (at least one, at most `max_wall`) are walls and the next one belongs to
/// a different region.
pub open spec fn bridged(
    labels: Seq<Vec<i32>>,
    rows: int,
    cols: int,
    a: (int, int),
    d: int,
    m: int,
    max_wall: int,
) -> bool {
    &&& in_grid(rows, cols, a)
    &&& lab(labels, a) >= 0
    &&& (d == 0 || d == 1)
    &&& 1 <= m <= max_wall
    &&& forall|k: int| 1 <= k <= m ==> in_grid(rows, cols, #[trigger] step(a, d, k)) && lab(labels, step(a, d, k)) < 0
    &&& in_grid(rows, cols, step(a, d, m + 1))
    &&& lab(labels, step(a, d, m + 1)) >= 0
    &&& lab(labels, step(a, d, m + 1)) != lab(labels, a)
}

/// A bridge leads from a cell of region `x` to a cell of region `y`, starting
/// from a (cell, direction) pair scanned before `(pos, dpos)`.
pub open spec fn linked_before(
    labels: Seq<Vec<i32>>,
    rows: int,
    cols: int,
    max_wall: int,
    x: int,
    y: int,
    pos: (int, int),
    dpos: int,
) -> bool {
    exists|a: (int, int), d: int, m: int|
        (before(a, pos) || (a == pos && d < dpos)) && #[trigger] bridged(labels, rows, cols, a, d, m, max_wall)
            && lab(labels, a) == x && lab(labels, step(a, d, m + 1)) == y
}

/// A bridge leads from some cell of region `x` to a cell of region `y`.
pub open spec fn regions_linked(labels: Seq<Vec<i32>>, rows: int, cols: int, max_wall: int, x: int, y: int) -> bool {
    exists|a: (int, int), d: int, m: int|
        #[trigger] bridged(labels, rows, cols, a, d, m, max_wall) && lab(labels, a) == x && lab(
            labels,
            step(a, d, m + 1),
        ) == y
}

/// A cell and direction have at most one bridge.
proof fn lemma_bridge_unique(
    labels: Seq<Vec<i32>>,
    rows: int,
    cols: int,
    a: (int, int),
    d: int,
    m1: int,
    m2: int,
    max_wall: int,
)
    requires
        bridged(labels, rows, cols, a, d, m1, max_wall),
        bridged(labels, rows, cols, a, d, m2, max_wall),
    ensures
        m1 == m2,
{
    if m1 < m2 {
        assert(lab(labels, step(a, d, m1 + 1)) < 0);
    } else if m2 < m1 {
        assert(lab(labels, step(a, d, m2 + 1)) < 0);
    }
}

/// Walks from `(r, c)` in direction `d` over walls and reports the region
/// met right after 1..=`max_wall` walls, when it differs from the start's.
fn scan_bridge(
    labels: &[Vec<i32>],
    rows: usize,
    cols: usize,
    r: usize,
    c: usize,
    d: usize,
    max_wall: usize,
) -> (found: Option<i32>)
    requires
        labels@.len() == rows,
        label_rows_cover(labels@, cols as int),
        r < rows,
        c < cols,
        d < 2,
        lab(labels@, (r as int, c as int)) >= 0,
    ensures
        match found {
            Some(b) => exists|m: int|
                #[trigger] bridged(labels@, rows as int, cols as int, (r as int, c as int), d as int, m, max_wall as int)
                    && lab(labels@, step((r as int, c as int), d as int, m + 1)) == b,
            None => forall|m: int|
                !#[trigger] bridged(labels@, rows as int, cols as int, (r as int, c as int), d as int, m, max_wall as int),
        },
{
    let ghost a = (r as int, c as int);
    let ghost di = d as int;
    let here = labels[r][c];
    let mut walls: usize = 0;
    let mut k: usize = 1;
    loop
        invariant
            labels@.len() == rows,
            label_rows_cover(labels@, cols as int),
            r < rows,
            c < cols,
            d < 2,
            a == (r as int, c as int),
            di == d as int,
            here == lab(labels@, a),
            here >= 0,
            k >= 1,
            walls == k - 1,
            walls <= max_wall,
            forall|j: int| 1 <= j < k ==> in_grid(rows as int, cols as int, #[trigger] step(a, di, j)) && lab(
                labels@,
                step(a, di, j),
            ) < 0,
            d == 0 ==> c + k <= cols,
            d == 1 ==> r + k <= rows,
        decreases (if d == 0 { cols - c } else { rows - r }) - k,
    {
        let (nr, nc) = if d == 0 {
            (r, c + k)
        } else {
            (r + k, c)
        };
        proof {
            assert(step(a, di, k as int) == (nr as int, nc as int));
        }
        if nr >= rows || nc >= cols {
            proof {
                assert forall|m: int|
                    !#[trigger] bridged(labels@, rows as int, cols as int, a, di, m, max_wall as int) by {
                    if bridged(labels@, rows as int, cols as int, a, di, m, max_wall as int) {
                        if m + 1 < k {
                            assert(lab(labels@, step(a, di, m + 1)) < 0);
                        } else if m + 1 > k {
                            assert(in_grid(rows as int, cols as int, step(a, di, k as int)));
                        }
                    }
                }
            }
            return None;
        }
        let b = labels[nr][nc];
        if b < 0 {
            walls = walls + 1;
            if walls > max_wall {
                proof {
                    assert forall|m: int|
                        !#[trigger] bridged(labels@, rows as int, cols as int, a, di, m, max_wall as int) by {
                        if bridged(labels@, rows as int, cols as int, a, di, m, max_wall as int) {
                            assert(m + 1 <= k);
                            if m + 1 < k {
                                assert(lab(labels@, step(a, di, m + 1)) < 0);
                            }
                        }
                    }
                }
                return None;
            }
            k = k + 1;
            continue;
        }
        if walls >= 1 && b != here {
            proof {
                assert(bridged(labels@, rows as int, cols as int, a, di, walls as int, max_wall as int));
            }
            return Some(b);
        }
        proof {
            assert forall|m: int|
                !#[trigger] bridged(labels@, rows as int, cols as int, a, di, m, max_wall as int) by {
                if bridged(labels@, rows as int, cols as int, a, di, m, max_wall as int) {
                    if m + 1 < k {
                        assert(lab(labels@, step(a, di, m + 1)) < 0);
                    } else if m + 1 > k {
                        assert(lab(labels@, step(a, di, k as int)) < 0);
                    }
                }
            }
        }
        return None;
    }
}

/// Every bridge starting at `a` joins two labels below `n`.
pub open spec fn bridge_labels_below(labels: Seq<Vec<i32>>, rows: int, cols: int, max_wall: int, a: (int, int), n: int) -> bool {
    forall|d: int, m: int|
        #[trigger] bridged(labels, rows, cols, a, d, m, max_wall) ==> lab(labels, a) < n && lab(labels, step(a, d, m + 1)) < n
}

/// A `n` by `n` matrix of flags.
pub open spec fn is_square(m: Seq<Vec<bool>>, n: int) -> bool {
    m.len() == n && forall|i: int| 0 <= i < n ==> (#[trigger] m[i])@.len() == n
}

/// The matrix marks exactly the pairs linked by a bridge scanned before
/// `(pos, dpos)`, in either direction.
spec fn adjacency_so_far(
    labels: Seq<Vec<i32>>,
    rows: int,
    cols: int,
    max_wall: int,
    n: int,
    adj: Seq<Vec<bool>>,
    pos: (int, int),
    dpos: int,
) -> bool {
    &&& is_square(adj, n)
    &&& forall|x: int, y: int|
        0 <= x < n && 0 <= y < n ==> #[trigger] adj[x]@[y] == (linked_before(labels, rows, cols, max_wall, x, y, pos, dpos)
            || linked_before(labels, rows, cols, max_wall, y, x, pos, dpos))
}

/// Recording the outcome of the scan from `pos` in direction `dpos`.
proof fn lemma_record_bridge(
    labels: Seq<Vec<i32>>,
    rows: int,
    cols: int,
    max_wall: int,
    n: int,
    adj0: Seq<Vec<bool>>,
    adj1: Seq<Vec<bool>>,
    pos: (int, int),
    dpos: int,
    found: Option<i32>,
)
    requires
        adjacency_so_far(labels, rows, cols, max_wall, n, adj0, pos, dpos),
        in_grid(rows, cols, pos),
        lab(labels, pos) >= 0,
        0 <= dpos < 2,
        is_square(adj1, n),
        match found {
            Some(b) => (exists|m: int|
                #[trigger] bridged(labels, rows, cols, pos, dpos, m, max_wall) && lab(labels, step(pos, dpos, m + 1))
                    == b) && 0 <= lab(labels, pos) < n && 0 <= b < n && forall|x: int, y: int|
                0 <= x < n && 0 <= y < n ==> #[trigger] adj1[x]@[y] == (adj0[x]@[y] || (x == lab(labels, pos)
                    && y == b) || (y == lab(labels, pos) && x == b)),
            None => (forall|m: int| !#[trigger] bridged(labels, rows, cols, pos, dpos, m, max_wall)) && adj1
                == adj0,
        },
    ensures
        adjacency_so_far(labels, rows, cols, max_wall, n, adj1, pos, dpos + 1),
{
    assert forall|x: int, y: int|
        linked_before(labels, rows, cols, max_wall, x, y, pos, dpos + 1) <==> (linked_before(
            labels,
            rows,
            cols,
            max_wall,
            x,
            y,
            pos,
            dpos,
        ) || (exists|m: int|
            #[trigger] bridged(labels, rows, cols, pos, dpos, m, max_wall) && lab(labels, pos) == x && lab(
                labels,
                step(pos, dpos, m + 1),
            ) == y)) by {
        if linked_before(labels, rows, cols, max_wall, x, y, pos, dpos + 1) {
            let (a, d, m) = choose|a: (int, int), d: int, m: int|
                (before(a, pos) || (a == pos && d < dpos + 1)) && #[trigger] bridged(
                    labels,
                    rows,
                    cols,
                    a,
                    d,
                    m,
                    max_wall,
                ) && lab(labels, a) == x && lab(labels, step(a, d, m + 1)) == y;
            if before(a, pos) || d < dpos {
            } else {
                assert(bridged(labels, rows, cols, pos, dpos, m, max_wall));
            }
        }
        if exists|m: int|
            #[trigger] bridged(labels, rows, cols, pos, dpos, m, max_wall) && lab(labels, pos) == x && lab(
                labels,
                step(pos, dpos, m + 1),
            ) == y {
            let m = choose|m: int|
                #[trigger] bridged(labels, rows, cols, pos, dpos, m, max_wall) && lab(labels, pos) == x && lab(
                    labels,
                    step(pos, dpos, m + 1),
                ) == y;
            assert((before(pos, pos) || (pos == pos && dpos < dpos + 1)) && bridged(labels, rows, cols, pos, dpos, m, max_wall)
                && lab(labels, pos) == x && lab(labels, step(pos, dpos, m + 1)) == y);
        }
        if linked_before(labels, rows, cols, max_wall, x, y, pos, dpos) {
            let (a, d, m) = choose|a: (int, int), d: int, m: int|
                (before(a, pos) || (a == pos && d < dpos)) && #[trigger] bridged(
                    labels,
                    rows,
                    cols,
                    a,
                    d,
                    m,
                    max_wall,
                ) && lab(labels, a) == x && lab(labels, step(a, d, m + 1)) == y;
            assert((before(a, pos) || (a == pos && d < dpos + 1)) && bridged(labels, rows, cols, a, d, m, max_wall)
                && lab(labels, a) == x && lab(labels, step(a, d, m + 1)) == y);
        }
    }
    match found {
        Some(b) => {
            let m0 = choose|m: int|
                #[trigger] bridged(labels, rows, cols, pos, dpos, m, max_wall) && lab(labels, step(pos, dpos, m + 1)) == b;
            assert forall|x: int, y: int|
                0 <= x < n && 0 <= y < n implies #[trigger] adj1[x]@[y] == (linked_before(
                labels,
                rows,
                cols,
                max_wall,
                x,
                y,
                pos,
                dpos + 1,
            ) || linked_before(labels, rows, cols, max_wall, y, x, pos, dpos + 1)) by {
                assert forall|m: int| #[trigger] bridged(labels, rows, cols, pos, dpos, m, max_wall) implies m == m0 by {
                    lemma_bridge_unique(labels, rows, cols, pos, dpos, m, m0, max_wall);
                }
                assert(adj0[x]@[y] == (linked_before(labels, rows, cols, max_wall, x, y, pos, dpos) || linked_before(
                    labels,
                    rows,
                    cols,
                    max_wall,
                    y,
                    x,
                    pos,
                    dpos,
                )));
            }
        },
        None => {
            assert forall|x: int, y: int|
                0 <= x < n && 0 <= y < n implies #[trigger] adj1[x]@[y] == (linked_before(
                labels,
                rows,
                cols,
                max_wall,
                x,
                y,
                pos,
                dpos + 1,
            ) || linked_before(labels, rows, cols, max_wall, y, x, pos, dpos + 1)) by {
                assert(adj0[x]@[y] == (linked_before(labels, rows, cols, max_wall, x, y, pos, dpos) || linked_before(
                    labels,
                    rows,
                    cols,
                    max_wall,
                    y,
                    x,
                    pos,
                    dpos,
                )));
            }
        },
    }
}

/// Moving the scan position past a cell that starts no bridge, or past the
/// end of a row.
proof fn lemma_linked_advance(
    labels: Seq<Vec<i32>>,
    rows: int,
    cols: int,
    max_wall: int,
    x: int,
    y: int,
    pos: (int, int),
    dpos: int,
    npos: (int, int),
)
    requires
        forall|a: (int, int)| in_grid(rows, cols, a) ==> (before(a, npos) <==> (before(a, pos) || a == pos)),
        dpos == 2 || lab(labels, pos) < 0 || !in_grid(rows, cols, pos),
    ensures
        linked_before(labels, rows, cols, max_wall, x, y, npos, 0) == linked_before(
            labels,
            rows,
            cols,
            max_wall,
            x,
            y,
            pos,
            dpos,
        ),
{
    if linked_before(labels, rows, cols, max_wall, x, y, npos, 0) {
        let (a, d, m) = choose|a: (int, int), d: int, m: int|
            (before(a, npos) || (a == npos && d < 0)) && #[trigger] bridged(labels, rows, cols, a, d, m, max_wall)
                && lab(labels, a) == x && lab(labels, step(a, d, m + 1)) == y;
        assert((before(a, pos) || (a == pos && d < dpos)) && bridged(labels, rows, cols, a, d, m, max_wall));
    }
    if linked_before(labels, rows, cols, max_wall, x, y, pos, dpos) {
        let (a, d, m) = choose|a: (int, int), d: int, m: int|
            (before(a, pos) || (a == pos && d < dpos)) && #[trigger] bridged(labels, rows, cols, a, d, m, max_wall)
                && lab(labels, a) == x && lab(labels, step(a, d, m + 1)) == y;
        assert(before(a, npos) && bridged(labels, rows, cols, a, d, m, max_wall));
    }
}

/// Marks every pair of regions facing each other across a straight
/// horizontal or vertical run of 1..=`max_wall` wall cells; the matrix is
/// symmetric.
pub fn region_adjacency(labels: &[Vec<i32>], num_regions: usize, max_wall: usize) -> (adj: Vec<Vec<bool>>)
    requires
        labels@.len() >= 1,
        label_rows_cover(labels@, labels@[0]@.len() as int),
        forall|a: (int, int)|
            in_grid(labels@.len() as int, labels@[0]@.len() as int, a) ==> #[trigger] bridge_labels_below(
                labels@,
                labels@.len() as int,
                labels@[0]@.len() as int,
                max_wall as int,
                a,
                num_regions as int,
            ),
    ensures
        is_square(adj@, num_regions as int),
        forall|x: int, y: int|
            0 <= x < num_regions && 0 <= y < num_regions ==> #[trigger] adj@[x]@[y] == (regions_linked(
                labels@,
                labels@.len() as int,
                labels@[0]@.len() as int,
                max_wall as int,
                x,
                y,
            ) || regions_linked(labels@, labels@.len() as int, labels@[0]@.len() as int, max_wall as int, y, x)),
        forall|x: int, y: int| 0 <= x < num_regions && 0 <= y < num_regions ==> #[trigger] adj@[x]@[y] == adj@[y]@[x],
        forall|x: int| 0 <= x < num_regions ==> !#[trigger] adj@[x]@[x],
{
    let ghost l = labels@;
    let rows = labels.len();
    let cols = labels[0].len();
    let ghost ri = rows as int;
    let ghost ci = cols as int;
    let ghost n = num_regions as int;
    let ghost mw = max_wall as int;
    let mut adj: Vec<Vec<bool>> = Vec::new();
    let mut i: usize = 0;
    while i < num_regions
        invariant
            i <= num_regions,
            adj@.len() == i,
            forall|j: int| 0 <= j < i ==> (#[trigger] adj@[j])@ == Seq::new(num_regions as nat, |k: int| false),
        decreases num_regions - i,
    {
        let row = vec![false; num_regions];
        proof {
            assert(row@ =~= Seq::new(num_regions as nat, |k: int| false));
        }
        adj.push(row);
        i = i + 1;
    }
    proof {
        assert forall|x: int, y: int| 0 <= x < n && 0 <= y < n implies #[trigger] adj@[x]@[y] == (linked_before(
            l,
            ri,
            ci,
            mw,
            x,
            y,
            (0, 0),
            0,
        ) || linked_before(l, ri, ci, mw, y, x, (0, 0), 0)) by {
            assert(adj@[x]@ == Seq::new(num_regions as nat, |k: int| false));
        }
    }
    let mut r: usize = 0;
    while r < rows
        invariant
            l == labels@,
            rows == l.len(),
            ri == rows as int,
            ci == cols as int,
            cols == l[0]@.len(),
            n == num_regions as int,
            mw == max_wall as int,
            label_rows_cover(l, ci),
            forall|a: (int, int)| in_grid(ri, ci, a) ==> #[trigger] bridge_labels_below(l, ri, ci, mw, a, n),
            r <= rows,
            adjacency_so_far(l, ri, ci, mw, n, adj@, (r as int, 0), 0),
        decreases rows - r,
    {
        let mut c: usize = 0;
        while c < cols
            invariant
                l == labels@,
                rows == l.len(),
                ri == rows as int,
                ci == cols as int,
                n == num_regions as int,
                mw == max_wall as int,
                label_rows_cover(l, ci),
                forall|a: (int, int)| in_grid(ri, ci, a) ==> #[trigger] bridge_labels_below(l, ri, ci, mw, a, n),
                r < rows,
                c <= cols,
                adjacency_so_far(l, ri, ci, mw, n, adj@, (r as int, c as int), 0),
            decreases cols - c,
        {
            let ghost pos = (r as int, c as int);
            let ghost npos = (r as int, c as int + 1);
            let a = labels[r][c];
            if a >= 0 {
                let mut d: usize = 0;
                while d < 2
                    invariant
                        l == labels@,
                        rows == l.len(),
                        ri == rows as int,
                        ci == cols as int,
                        n == num_regions as int,
                        mw == max_wall as int,
                        label_rows_cover(l, ci),
                        forall|a: (int, int)| in_grid(ri, ci, a) ==> #[trigger] bridge_labels_below(l, ri, ci, mw, a, n),
                        r < rows,
                        c < cols,
                        pos == (r as int, c as int),
                        a == lab(l, pos),
                        a >= 0,
                        d <= 2,
                        adjacency_so_far(l, ri, ci, mw, n, adj@, pos, d as int),
                    decreases 2 - d,
                {
                    let ghost adj0 = adj@;
                    let found = scan_bridge(labels, rows, cols, r, c, d, max_wall);
                    match found {
                        Some(b) => {
                            proof {
                                let m = choose|m: int|
                                    #[trigger] bridged(l, ri, ci, pos, d as int, m, mw) && lab(l, step(pos, d as int, m + 1)) == b;
                                assert(in_grid(ri, ci, step(pos, d as int, m + 1)));
                                assert(bridge_labels_below(l, ri, ci, mw, pos, n));
                            }
                            adj[a as usize].set(b as usize, true);
                            adj[b as usize].set(a as usize, true);
                            proof {
                                assert forall|x: int, y: int|
                                    0 <= x < n && 0 <= y < n implies #[trigger] adj@[x]@[y] == (adj0[x]@[y] || (x == a
                                        && y == b) || (y == a && x == b)) by {}
                                assert forall|i: int| 0 <= i < n implies (#[trigger] adj@[i])@.len() == n by {}
                            }
                        },
                        None => {},
                    }
                    proof {
                        lemma_record_bridge(l, ri, ci, mw, n, adj0, adj@, pos, d as int, found);
                    }
                    d = d + 1;
                }
            }
            proof {
                assert forall|x: int, y: int|
                    0 <= x < n && 0 <= y < n implies #[trigger] adj@[x]@[y] == (linked_before(
                    l,
                    ri,
                    ci,
                    mw,
                    x,
                    y,
                    npos,
                    0,
                ) || linked_before(l, ri, ci, mw, y, x, npos, 0)) by {
                    let dd = if a >= 0 { 2int } else { 0int };
                    lemma_linked_advance(l, ri, ci, mw, x, y, pos, dd, npos);
                    lemma_linked_advance(l, ri, ci, mw, y, x, pos, dd, npos);
                }
            }
            c = c + 1;
        }
        proof {
            let pos = (r as int, ci);
            let npos = (r as int + 1, 0);
            assert forall|x: int, y: int|
                0 <= x < n && 0 <= y < n implies #[trigger] adj@[x]@[y] == (linked_before(
                l,
                ri,
                ci,
                mw,
                x,
                y,
                npos,
                0,
            ) || linked_before(l, ri, ci, mw, y, x, npos, 0)) by {
                lemma_linked_advance(l, ri, ci, mw, x, y, pos, 0, npos);
                lemma_linked_advance(l, ri, ci, mw, y, x, pos, 0, npos);
            }
        }
        r = r + 1;
    }
    proof {
        assert forall|x: int, y: int|
            0 <= x < n && 0 <= y < n implies #[trigger] adj@[x]@[y] == (regions_linked(l, ri, ci, mw, x, y)
            || regions_linked(l, ri, ci, mw, y, x)) by {
            lemma_linked_all(l, ri, ci, mw, x, y);
            lemma_linked_all(l, ri, ci, mw, y, x);
        }
        assert forall|x: int| 0 <= x < n implies !#[trigger] adj@[x]@[x] by {
            lemma_linked_all(l, ri, ci, mw, x, x);
            if regions_linked(l, ri, ci, mw, x, x) {
                let (a, d, m) = choose|a: (int, int), d: int, m: int|
                    #[trigger] bridged(l, ri, ci, a, d, m, mw) && lab(l, a) == x && lab(l, step(a, d, m + 1)) == x;
            }
        }
    }
    adj
}

/// Once every row is scanned, every bridge has been seen.
proof fn lemma_linked_all(labels: Seq<Vec<i32>>, rows: int, cols: int, max_wall: int, x: int, y: int)
    ensures
        linked_before(labels, rows, cols, max_wall, x, y, (rows, 0), 0) == regions_linked(
            labels,
            rows,
            cols,
            max_wall,
            x,
            y,
        ),
{
    if regions_linked(labels, rows, cols, max_wall, x, y) {
        let (a, d, m) = choose|a: (int, int), d: int, m: int|
            #[trigger] bridged(labels, rows, cols, a, d, m, max_wall) && lab(labels, a) == x && lab(
                labels,
                step(a, d, m + 1),
            ) == y;
        assert(before(a, (rows, 0)));
    }
}

} // verus!
