//! Flood-fill check that the open cells of a flat obstacle map form one
//! 4-connected piece.
use std::collections::VecDeque;
use vstd::prelude::*;
use vstd::arithmetic::div_mod::lemma_fundamental_div_mod_converse;
use crate::counting::{count_false, count_true, lemma_count_marks_within, lemma_count_true_all_false, lemma_count_true_bound, lemma_count_true_set};

verus! {

/// Cells `a` and `b` of a row-major grid `cols` wide holding `total` cells are
/// orthogonal neighbours.
pub open spec fn flat_adjacent(cols: int, total: int, a: int, b: int) -> bool {
    &&& 0 <= a < total
    &&& 0 <= b < total
    &&& {
        ||| (b == a + 1 && b % cols != 0)
        ||| (a == b + 1 && a % cols != 0)
        ||| b == a + cols
        ||| a == b + cols
    }
}

/// Cell `i` exists in the map and holds no obstacle.
pub open spec fn open_at(obstacles: Seq<bool>, i: int) -> bool {
    0 <= i < obstacles.len() && !obstacles[i]
}

/// `p` is a walk through open grid cells, each step to an orthogonal neighbour.
pub open spec fn is_open_walk(obstacles: Seq<bool>, cols: int, total: int, p: Seq<int>) -> bool {
    &&& p.len() >= 1
    &&& forall|k: int| 0 <= k < p.len() ==> open_at(obstacles, #[trigger] p[k]) && p[k] < total
    &&& forall|k: int|
        0 <= k < p.len() - 1 ==> #[trigger] flat_adjacent(cols, total, p[k], p[k + 1])
}

/// An open walk leads from `a` to `b`.
pub open spec fn flat_connected(obstacles: Seq<bool>, cols: int, total: int, a: int, b: int) -> bool {
    exists|p: Seq<int>|
        #[trigger] is_open_walk(obstacles, cols, total, p) && p[0] == a && p.last() == b
}

/// Some cell among the first `cols * rows` is open.
pub open spec fn has_open_cell(obstacles: Seq<bool>, cols: int, rows: int) -> bool {
    exists|i: int| 0 <= i < cols * rows && open_at(obstacles, i)
}

/// Every open cell of the map lies in the grid and reaches every other one.
pub open spec fn all_open_connected(obstacles: Seq<bool>, cols: int, rows: int) -> bool {
    forall|i: int, j: int|
        open_at(obstacles, i) && open_at(obstacles, j) ==> i < cols * rows && j < cols * rows
            && #[trigger] flat_connected(obstacles, cols, cols * rows, i, j)
}

/// What the flood fill decides: a grid without open cells counts as
/// connected; otherwise every open entry of the map must be a grid cell
/// reachable from every other open cell.
pub open spec fn grid_connected(obstacles: Seq<bool>, cols: int, rows: int) -> bool {
    !has_open_cell(obstacles, cols, rows) || all_open_connected(obstacles, cols, rows)
}

proof fn lemma_walk_single(obstacles: Seq<bool>, cols: int, total: int, a: int)
    requires
        open_at(obstacles, a),
        a < total,
    ensures
        flat_connected(obstacles, cols, total, a, a),
{
    let p = seq![a];
    assert(is_open_walk(obstacles, cols, total, p));
}

proof fn lemma_walk_extend(obstacles: Seq<bool>, cols: int, total: int, a: int, b: int, c: int)
    requires
        flat_connected(obstacles, cols, total, a, b),
        flat_adjacent(cols, total, b, c),
        open_at(obstacles, c),
    ensures
        flat_connected(obstacles, cols, total, a, c),
{
    let p = choose|p: Seq<int>|
        #[trigger] is_open_walk(obstacles, cols, total, p) && p[0] == a && p.last() == b;
    let q = p.push(c);
    assert forall|k: int| 0 <= k < q.len() - 1 implies #[trigger] flat_adjacent(
        cols,
        total,
        q[k],
        q[k + 1],
    ) by {
        if k < p.len() - 1 {
            assert(flat_adjacent(cols, total, p[k], p[k + 1]));
        }
    }
    assert(forall|k: int| 0 <= k < q.len() ==> open_at(obstacles, #[trigger] q[k]) && q[k] < total)
        by {
        assert(forall|k: int| 0 <= k < p.len() ==> q[k] == p[k]);
    }
    assert(is_open_walk(obstacles, cols, total, q));
}

proof fn lemma_walk_reverse(obstacles: Seq<bool>, cols: int, total: int, a: int, b: int)
    requires
        flat_connected(obstacles, cols, total, a, b),
    ensures
        flat_connected(obstacles, cols, total, b, a),
{
    let p = choose|p: Seq<int>|
        #[trigger] is_open_walk(obstacles, cols, total, p) && p[0] == a && p.last() == b;
    let q = p.reverse();
    assert forall|k: int| 0 <= k < q.len() - 1 implies #[trigger] flat_adjacent(
        cols,
        total,
        q[k],
        q[k + 1],
    ) by {
        let j = p.len() - 2 - k;
        assert(flat_adjacent(cols, total, p[j], p[j + 1]));
    }
    assert(forall|k: int| 0 <= k < q.len() ==> open_at(obstacles, #[trigger] q[k]) && q[k] < total)
        by {
        assert(forall|k: int| 0 <= k < q.len() ==> q[k] == p[p.len() - 1 - k]);
    }
    assert(is_open_walk(obstacles, cols, total, q));
}

proof fn lemma_walk_join(obstacles: Seq<bool>, cols: int, total: int, a: int, b: int, c: int)
    requires
        flat_connected(obstacles, cols, total, a, b),
        flat_connected(obstacles, cols, total, b, c),
    ensures
        flat_connected(obstacles, cols, total, a, c),
{
    let p = choose|p: Seq<int>|
        #[trigger] is_open_walk(obstacles, cols, total, p) && p[0] == a && p.last() == b;
    let r = choose|r: Seq<int>|
        #[trigger] is_open_walk(obstacles, cols, total, r) && r[0] == b && r.last() == c;
    let q = p + r.drop_first();
    assert forall|k: int| 0 <= k < q.len() - 1 implies #[trigger] flat_adjacent(
        cols,
        total,
        q[k],
        q[k + 1],
    ) by {
        if k < p.len() - 1 {
            assert(flat_adjacent(cols, total, p[k], p[k + 1]));
        } else {
            let j = k - (p.len() - 1);
            assert(flat_adjacent(cols, total, r[j], r[j + 1]));
        }
    }
    assert forall|k: int| 0 <= k < q.len() implies open_at(obstacles, #[trigger] q[k]) && q[k]
        < total by {
        if k < p.len() {
            assert(q[k] == p[k]);
        } else {
            assert(q[k] == r[k - p.len() + 1]);
        }
    }
    assert(is_open_walk(obstacles, cols, total, q));
}

/// Every walk that starts in a set closed under open neighbours stays in it.
proof fn lemma_closed_set_contains_walks(
    obstacles: Seq<bool>,
    cols: int,
    total: int,
    member: Seq<bool>,
    a: int,
    b: int,
)
    requires
        member.len() == total,
        0 <= a < total,
        member[a],
        flat_connected(obstacles, cols, total, a, b),
        forall|p: int, q: int|
            0 <= p < total && member[p] && #[trigger] flat_adjacent(cols, total, p, q) && open_at(
                obstacles,
                q,
            ) ==> member[q],
    ensures
        member[b],
{
    let w = choose|w: Seq<int>|
        #[trigger] is_open_walk(obstacles, cols, total, w) && w[0] == a && w.last() == b;
    lemma_closed_walk_prefix(obstacles, cols, total, member, w, w.len() - 1);
}

proof fn lemma_closed_walk_prefix(
    obstacles: Seq<bool>,
    cols: int,
    total: int,
    member: Seq<bool>,
    w: Seq<int>,
    k: int,
)
    requires
        member.len() == total,
        is_open_walk(obstacles, cols, total, w),
        member[w[0]],
        0 <= k < w.len(),
        forall|p: int, q: int|
            0 <= p < total && member[p] && #[trigger] flat_adjacent(cols, total, p, q) && open_at(
                obstacles,
                q,
            ) ==> member[q],
    ensures
        member[w[k]],
    decreases k,
{
    if k > 0 {
        lemma_closed_walk_prefix(obstacles, cols, total, member, w, k - 1);
        let j = k - 1;
        assert(flat_adjacent(cols, total, w[j], w[j + 1]));
        assert(open_at(obstacles, w[k]));
    }
}

/// `s` is the first open entry of the map.
pub open spec fn first_open(obstacles: Seq<bool>, s: int) -> bool {
    0 <= s < obstacles.len() && !obstacles[s] && forall|i: int| 0 <= i < s ==> obstacles[i]
}

/// From `s`, the flood fill only ever looks at entries of the map: every
/// grid neighbour of a cell reachable from `s` lies in the map.
pub open spec fn fill_reads_map(obstacles: Seq<bool>, cols: int, total: int, s: int) -> bool {
    total <= obstacles.len() || forall|c: int, q: int|
        flat_connected(obstacles, cols, total, s, c) && #[trigger] flat_adjacent(cols, total, c, q) ==> q < obstacles.len()
}

/// The flood fill reads only entries of the map: either the map covers the
/// whole grid, or its first open entry lies in the grid and no cell reachable
/// from it has a grid neighbour beyond the map.
pub open spec fn fill_stays_in_map(obstacles: Seq<bool>, cols: int, rows: int) -> bool {
    ||| cols * rows <= obstacles.len()
    ||| exists|s: int| #[trigger] first_open(obstacles, s) && fill_reads_map(obstacles, cols, cols * rows, s)
}

/// Row and column of a row-major cell index, and how its neighbours' indices
/// relate to them.
pub(crate) proof fn lemma_cell_coords(idx: int, cols: int, rows: int)
    requires
        cols > 0,
        0 <= idx < cols * rows,
    ensures
        idx == (idx / cols) * cols + idx % cols,
        0 <= idx % cols < cols,
        0 <= idx / cols < rows,
        (idx % cols != 0) <==> (idx % cols > 0),
        ((idx + 1) % cols != 0) <==> (idx % cols + 1 < cols),
        (idx + cols < cols * rows) <==> (idx / cols + 1 < rows),
        (idx >= cols) <==> (idx / cols > 0),
        idx % cols + 1 < cols ==> idx + 1 < cols * rows,
{
    let row = idx / cols;
    let col = idx % cols;
    vstd::arithmetic::div_mod::lemma_fundamental_div_mod(idx, cols);
    assert(0 <= col < cols);
    assert(idx == row * cols + col) by (nonlinear_arith)
        requires
            idx == cols * (idx / cols) + idx % cols,
            row == idx / cols,
            col == idx % cols,
    ;
    assert(0 <= row) by (nonlinear_arith)
        requires
            idx == row * cols + col,
            0 <= idx,
            col < cols,
            cols > 0,
    ;
    assert(row < rows) by (nonlinear_arith)
        requires
            idx == row * cols + col,
            idx < cols * rows,
            0 <= col,
            cols > 0,
    ;
    if col + 1 < cols {
        lemma_fundamental_div_mod_converse(idx + 1, cols, row, col + 1);
    } else {
        assert(idx + 1 == (row + 1) * cols + 0) by (nonlinear_arith)
            requires
                idx == row * cols + col,
                col + 1 == cols,
        ;
        lemma_fundamental_div_mod_converse(idx + 1, cols, row + 1, 0);
    }
    assert((idx + cols < cols * rows) <==> (row + 1 < rows)) by (nonlinear_arith)
        requires
            idx == row * cols + col,
            0 <= col < cols,
            0 <= row,
    ;
    assert(col + 1 < cols ==> idx + 1 < cols * rows) by (nonlinear_arith)
        requires
            idx == row * cols + col,
            0 <= col < cols,
            0 <= row < rows,
    ;
    assert((idx >= cols) <==> (row > 0)) by (nonlinear_arith)
        requires
            idx == row * cols + col,
            0 <= col < cols,
            0 <= row,
    ;
}

/// Marks `ni` as reached and queues it when it is open and not reached yet.
fn visit_cell(
    obstacles: &[bool],
    visited: &mut Vec<bool>,
    queue: &mut VecDeque<usize>,
    count: &mut usize,
    ni: usize,
    Ghost(cols): Ghost<int>,
    Ghost(start): Ghost<int>,
    Ghost(from): Ghost<int>,
)
    requires
        ni < obstacles@.len(),
        ni < old(visited)@.len(),
        old(visited)@.len() <= usize::MAX,
        0 <= from < old(visited)@.len(),
        old(visited)@[from],
        flat_adjacent(cols, old(visited)@.len() as int, from, ni as int),
        *old(count) == count_true(old(visited)@),
        forall|i: int|
            0 <= i < old(visited)@.len() && #[trigger] old(visited)@[i] ==> open_at(obstacles@, i)
                && flat_connected(obstacles@, cols, old(visited)@.len() as int, start, i),
        forall|i: int|
            0 <= i < old(queue)@.len() ==> #[trigger] old(queue)@[i] < old(visited)@.len()
                && old(visited)@[old(queue)@[i] as int],
    ensures
        final(visited)@.len() == old(visited)@.len(),
        *final(count) == count_true(final(visited)@),
        forall|i: int|
            0 <= i < final(visited)@.len() && #[trigger] final(visited)@[i] ==> open_at(obstacles@, i)
                && flat_connected(obstacles@, cols, final(visited)@.len() as int, start, i),
        forall|i: int|
            0 <= i < final(queue)@.len() ==> #[trigger] final(queue)@[i] < final(visited)@.len()
                && final(visited)@[final(queue)@[i] as int],
        forall|i: int| 0 <= i < old(visited)@.len() && old(visited)@[i] ==> #[trigger] final(visited)@[i],
        open_at(obstacles@, ni as int) ==> final(visited)@[ni as int],
        final(queue)@.len() >= old(queue)@.len(),
        final(queue)@.len() - old(queue)@.len() == *final(count) - *old(count),
        final(queue)@.subrange(0, old(queue)@.len() as int) == old(queue)@,
        forall|i: int|
            0 <= i < final(visited)@.len() && #[trigger] final(visited)@[i] && !old(visited)@[i]
                ==> final(queue)@.contains(i as usize),
{
    let ghost t = visited@.len() as int;
    if !obstacles[ni] && !visited[ni] {
        proof {
            lemma_walk_extend(obstacles@, cols, t, start, from, ni as int);
            lemma_count_true_set(visited@, ni as int);
            lemma_count_true_bound(visited@.update(ni as int, true));
            lemma_count_true_bound(visited@);
        }
        visited.set(ni, true);
        *count = *count + 1;
        queue.push_back(ni);
        proof {
            assert(queue@.subrange(0, old(queue)@.len() as int) =~= old(queue)@);
            assert(queue@[queue@.len() - 1] == ni);
        }
    } else {
        proof {
            assert(queue@.subrange(0, old(queue)@.len() as int) =~= old(queue)@);
        }
    }
}

/// Breadth-first flood fill from the first open cell; the grid is connected
/// when the fill reaches as many cells as the map has open entries.
pub fn is_grid_connected(obstacles: &[bool], cols: usize, rows: usize) -> (connected: bool)
    requires
        cols * rows <= usize::MAX,
        fill_stays_in_map(obstacles@, cols as int, rows as int),
    ensures
        connected == grid_connected(obstacles@, cols as int, rows as int),
{
    let ghost obst = obstacles@;
    let total = cols * rows;
    let ghost t = total as int;
    let mut start: usize = 0;
    while start < total && obstacles[start]
        invariant
            start <= total,
            total == cols * rows,
            t == total as int,
            obst == obstacles@,
            fill_stays_in_map(obst, cols as int, rows as int),
            forall|i: int| 0 <= i < start ==> obstacles@[i],
            total > obst.len() ==> start < obst.len(),
        decreases total - start,
    {
        start = start + 1;
        proof {
            if total > obst.len() {
                let s = choose|s: int| #[trigger] first_open(obst, s) && fill_reads_map(obst, cols as int, t, s);
                if start >= obst.len() {
                    assert(obst[s]);
                }
            }
        }
    }
    proof {
        if total > obst.len() && start < total {
            assert(start < obst.len());
        }
    }
    if start == total {
        assert(!has_open_cell(obst, cols as int, rows as int));
        return true;
    }
    proof {
        assert(first_open(obst, start as int));
        if total > obst.len() {
            let s = choose|s: int| #[trigger] first_open(obst, s) && fill_reads_map(obst, cols as int, t, s);
            assert(s == start as int) by {
                if s < start as int {
                    assert(obst[s]);
                } else if s > start as int {
                    assert(obst[start as int]);
                }
            }
        }
        assert(fill_reads_map(obst, cols as int, t, start as int));
    }
    assert(cols > 0) by (nonlinear_arith)
        requires
            start < cols * rows,
    ;
    let mut visited = vec![false; total];
    let mut queue: VecDeque<usize> = VecDeque::new();
    queue.push_back(start);
    visited.set(start, true);
    let mut count: usize = 1;
    proof {
        assert(queue@[0] == start);
        lemma_walk_single(obst, cols as int, t, start as int);
        assert(visited@ =~= Seq::new(t as nat, |i: int| false).update(start as int, true));
        lemma_count_true_set(Seq::new(t as nat, |i: int| false), start as int);
        assert(count_true(Seq::new(t as nat, |i: int| false)) == 0) by {
            lemma_count_true_all_false(t as nat);
        }
    }
    while queue.len() > 0
        invariant
            t == total as int,
            total == cols * rows,
            fill_reads_map(obst, cols as int, t, start as int),
            obst == obstacles@,
            cols > 0,
            0 <= start < total,
            open_at(obst, start as int),
            visited@.len() == total,
            visited@[start as int],
            count == count_true(visited@),
            forall|i: int|
                0 <= i < queue@.len() ==> #[trigger] queue@[i] < total && visited@[queue@[i] as int],
            forall|i: int|
                0 <= i < total && #[trigger] visited@[i] ==> open_at(obst, i) && flat_connected(
                    obst,
                    cols as int,
                    t,
                    start as int,
                    i,
                ),
            forall|p: int, q: int|
                0 <= p < total && visited@[p] && !queue@.contains(p as usize)
                    && #[trigger] flat_adjacent(cols as int, t, p, q) && open_at(obst, q)
                    ==> visited@[q],
        decreases total - count, queue@.len(),
    {
        let ghost vis0 = visited@;
        let ghost q0 = queue@;
        let ghost count0 = count;
        let idx = queue.pop_front().unwrap();
        let ghost q1 = queue@;
        proof {
            assert(q0[0] == idx);
            assert(q0 =~= seq![idx].add(q1));
            lemma_count_true_bound(visited@);
        }
        let col = idx % cols;
        let row = idx / cols;
        proof {
            lemma_cell_coords(idx as int, cols as int, rows as int);
        }
        let ghost c = cols as int;
        if col > 0 {
            visit_cell(obstacles, &mut visited, &mut queue, &mut count, idx - 1, Ghost(c), Ghost(start as int), Ghost(idx as int));
        }
        let ghost v1 = visited@;
        let ghost qa = queue@;
        assert(qa.subrange(0, q1.len() as int) =~= q1);
        if col + 1 < cols {
            proof {
                assert(flat_adjacent(c, t, idx as int, idx + 1));
            }
            visit_cell(obstacles, &mut visited, &mut queue, &mut count, idx + 1, Ghost(c), Ghost(start as int), Ghost(idx as int));
        }
        let ghost v2 = visited@;
        let ghost qb = queue@;
        assert(qb.subrange(0, qa.len() as int) =~= qa);
        if row > 0 {
            visit_cell(obstacles, &mut visited, &mut queue, &mut count, idx - cols, Ghost(c), Ghost(start as int), Ghost(idx as int));
        }
        let ghost v3 = visited@;
        let ghost qc = queue@;
        assert(qc.subrange(0, qb.len() as int) =~= qb);
        if row + 1 < rows {
            proof {
                assert(flat_adjacent(c, t, idx as int, idx + cols));
            }
            visit_cell(obstacles, &mut visited, &mut queue, &mut count, idx + cols, Ghost(c), Ghost(start as int), Ghost(idx as int));
        }
        proof {
            assert(queue@.subrange(0, qc.len() as int) =~= qc);
            lemma_closure_after_round(obst, c, t, idx as int, vis0, v1, v2, v3, visited@, q0, q1, qa, qb, qc, queue@);
            lemma_count_true_bound(visited@);
            if count == count0 {
                assert(queue@.len() >= q1.len());
            }
        }
    }
    let mut open_count: usize = 0;
    let mut k: usize = 0;
    while k < obstacles.len()
        invariant
            k <= obstacles@.len(),
            obst == obstacles@,
            open_count == count_false(obst.take(k as int)),
            open_count <= k,
        decreases obstacles@.len() - k,
    {
        proof {
            assert(obst.take(k as int + 1).drop_last() =~= obst.take(k as int));
        }
        if !obstacles[k] {
            open_count = open_count + 1;
        }
        k = k + 1;
    }
    proof {
        assert(obst.take(obst.len() as int) =~= obst);
        lemma_count_marks_within(visited@, obst);
        let c = cols as int;
        let r = rows as int;
        assert(has_open_cell(obst, c, r)) by {
            assert(0 <= start < c * r && open_at(obst, start as int));
        }
        if count == open_count {
            assert forall|i: int, j: int|
                open_at(obst, i) && open_at(obst, j) implies i < c * r && j < c * r
                && #[trigger] flat_connected(obst, c, c * r, i, j) by {
                assert(visited@[i] && visited@[j]);
                lemma_walk_reverse(obst, c, t, start as int, i);
                lemma_walk_join(obst, c, t, i, start as int, j);
            }
        } else {
            let i = choose|i: int| 0 <= i < obst.len() && !obst[i] && !(i < t && visited@[i]);
            if i < t {
                if flat_connected(obst, c, t, start as int, i) {
                    lemma_closed_set_contains_walks(obst, c, t, visited@, start as int, i);
                }
                assert(!all_open_connected(obst, c, r)) by {
                    assert(open_at(obst, start as int) && open_at(obst, i));
                }
            } else {
                if all_open_connected(obst, c, r) {
                    assert(open_at(obst, i));
                    assert(flat_connected(obst, c, c * r, i, i) ==> i < c * r);
                    assert(false);
                }
            }
        }
    }
    count == open_count
}

/// After the four neighbours of `idx` were visited, every reached cell that
/// is no longer queued has all its open neighbours reached.
proof fn lemma_closure_after_round(
    obst: Seq<bool>,
    c: int,
    t: int,
    idx: int,
    vis0: Seq<bool>,
    v1: Seq<bool>,
    v2: Seq<bool>,
    v3: Seq<bool>,
    v4: Seq<bool>,
    q0: Seq<usize>,
    q1: Seq<usize>,
    qa: Seq<usize>,
    qb: Seq<usize>,
    qc: Seq<usize>,
    q4: Seq<usize>,
)
    requires
        c > 0,
        0 <= idx < t,
        t <= usize::MAX,
        vis0.len() == t && v1.len() == t && v2.len() == t && v3.len() == t && v4.len() == t,
        q0 =~= seq![idx as usize].add(q1),
        forall|p: int, q: int|
            0 <= p < t && vis0[p] && !q0.contains(p as usize) && #[trigger] flat_adjacent(c, t, p, q)
                && open_at(obst, q) ==> vis0[q],
        // each step only adds reached cells, and queues the new ones
        forall|i: int| 0 <= i < t && vis0[i] ==> #[trigger] v1[i],
        forall|i: int| 0 <= i < t && v1[i] ==> #[trigger] v2[i],
        forall|i: int| 0 <= i < t && v2[i] ==> #[trigger] v3[i],
        forall|i: int| 0 <= i < t && v3[i] ==> #[trigger] v4[i],
        qa.len() >= q1.len() && qa.subrange(0, q1.len() as int) == q1,
        qb.len() >= qa.len() && qb.subrange(0, qa.len() as int) == qa,
        qc.len() >= qb.len() && qc.subrange(0, qb.len() as int) == qb,
        q4.len() >= qc.len() && q4.subrange(0, qc.len() as int) == qc,
        forall|i: int| 0 <= i < t && #[trigger] v1[i] && !vis0[i] ==> qa.contains(i as usize),
        forall|i: int| 0 <= i < t && #[trigger] v2[i] && !v1[i] ==> qb.contains(i as usize),
        forall|i: int| 0 <= i < t && #[trigger] v3[i] && !v2[i] ==> qc.contains(i as usize),
        forall|i: int| 0 <= i < t && #[trigger] v4[i] && !v3[i] ==> q4.contains(i as usize),
        // the four neighbours are reached when open
        forall|q: int| #[trigger] flat_adjacent(c, t, idx, q) && open_at(obst, q) ==> v4[q],
    ensures
        forall|p: int, q: int|
            0 <= p < t && v4[p] && !q4.contains(p as usize) && #[trigger] flat_adjacent(c, t, p, q)
                && open_at(obst, q) ==> v4[q],
{
    assert forall|s: Seq<usize>, u: Seq<usize>, x: usize|
        u.len() >= s.len() && u.subrange(0, s.len() as int) == s && #[trigger] s.contains(x)
            implies #[trigger] u.contains(x) by {
        let k = choose|k: int| 0 <= k < s.len() && s[k] == x;
        assert(u.subrange(0, s.len() as int)[k] == x);
    }
    assert forall|p: int, q: int|
        0 <= p < t && v4[p] && !q4.contains(p as usize) && #[trigger] flat_adjacent(c, t, p, q)
            && open_at(obst, q) implies v4[q] by {
        if p == idx {
        } else if vis0[p] {
            if q0.contains(p as usize) {
                let k = choose|k: int| 0 <= k < q0.len() && q0[k] == p as usize;
                assert(q0[0] == idx as usize);
                assert(k > 0);
                assert(q1[k - 1] == p as usize);
                assert(q1.contains(p as usize));
                assert(qa.contains(p as usize));
                assert(qb.contains(p as usize));
                assert(qc.contains(p as usize));
                assert(q4.contains(p as usize));
            }
            assert(vis0[q]);
        } else if v1[p] {
            assert(qa.contains(p as usize));
            assert(qb.contains(p as usize));
            assert(qc.contains(p as usize));
            assert(q4.contains(p as usize));
        } else if v2[p] {
            assert(qb.contains(p as usize));
            assert(qc.contains(p as usize));
            assert(q4.contains(p as usize));
        } else if v3[p] {
            assert(qc.contains(p as usize));
            assert(q4.contains(p as usize));
        } else {
            assert(q4.contains(p as usize));
        }
    }
}


/// Index of cell `(r, c)` in a row-major grid `cols` wide.
pub open spec fn flat_index(cols: int, r: int, c: int) -> int {
    r * cols + c
}

/// `t` is `o` transposed: `o` holds `rows` rows of `cols` cells, `t` holds
/// `cols` rows of `rows` cells, and cell `(c, r)` of `t` is cell `(r, c)` of `o`.
pub open spec fn is_transpose(o: Seq<bool>, t: Seq<bool>, cols: int, rows: int) -> bool {
    &&& o.len() == cols * rows
    &&& t.len() == cols * rows
    &&& forall|r: int, c: int|
        0 <= r < rows && 0 <= c < cols ==> t[#[trigger] flat_index(rows, c, r)] == o[flat_index(cols, r, c)]
}

/// Where cell `i` of a grid `cols` wide and `rows` high lands in its transpose.
pub open spec fn transpose_index(i: int, cols: int, rows: int) -> int {
    flat_index(rows, i % cols, i / cols)
}

pub(crate) proof fn lemma_index_coords(r: int, c: int, cols: int, rows: int)
    requires
        0 <= r < rows,
        0 <= c < cols,
    ensures
        0 <= flat_index(cols, r, c) < cols * rows,
        flat_index(cols, r, c) / cols == r,
        flat_index(cols, r, c) % cols == c,
        cols * rows == rows * cols,
{
    lemma_fundamental_div_mod_converse(r * cols + c, cols, r, c);
    assert(0 <= r * cols + c < cols * rows) by (nonlinear_arith)
        requires
            0 <= r < rows,
            0 <= c < cols,
    ;
    assert(cols * rows == rows * cols) by (nonlinear_arith);
}

/// A cell's index in the transpose, and back.
proof fn lemma_transpose_index(i: int, cols: int, rows: int)
    requires
        cols > 0,
        0 <= i < cols * rows,
    ensures
        i == flat_index(cols, i / cols, i % cols),
        0 <= i / cols < rows,
        0 <= i % cols < cols,
        0 <= transpose_index(i, cols, rows) < rows * cols,
        transpose_index(i, cols, rows) / rows == i % cols,
        transpose_index(i, cols, rows) % rows == i / cols,
        transpose_index(transpose_index(i, cols, rows), rows, cols) == i,
        cols * rows == rows * cols,
{
    lemma_cell_coords(i, cols, rows);
    lemma_index_coords(i % cols, i / cols, rows, cols);
}

/// One step between grid neighbours stays one step in the transpose.
proof fn lemma_transpose_step(cols: int, rows: int, a: int, b: int)
    requires
        cols > 0,
        0 <= a < cols * rows,
        0 <= b < cols * rows,
        (b == a + 1 && b % cols != 0) || b == a + cols,
    ensures
        flat_adjacent(rows, rows * cols, transpose_index(a, cols, rows), transpose_index(b, cols, rows)),
{
    lemma_transpose_index(a, cols, rows);
    lemma_transpose_index(b, cols, rows);
    lemma_cell_coords(a, cols, rows);
    let ra = a / cols;
    let ca = a % cols;
    let ta = transpose_index(a, cols, rows);
    let tb = transpose_index(b, cols, rows);
    if b == a + 1 && b % cols != 0 {
        lemma_fundamental_div_mod_converse(b, cols, ra, ca + 1);
        assert(tb == ta + rows) by (nonlinear_arith)
            requires
                ta == ca * rows + ra,
                tb == (ca + 1) * rows + ra,
        ;
    } else {
        assert(b == (ra + 1) * cols + ca) by (nonlinear_arith)
            requires
                a == ra * cols + ca,
                b == a + cols,
        ;
        lemma_fundamental_div_mod_converse(b, cols, ra + 1, ca);
        assert(tb == ta + 1);
        assert(tb % rows != 0);
    }
}

/// Every open walk of `o` maps, cell by cell, to an open walk of its transpose.
proof fn lemma_transpose_walk(o: Seq<bool>, t: Seq<bool>, cols: int, rows: int, p: Seq<int>) -> (q: Seq<int>)
    requires
        cols > 0,
        is_transpose(o, t, cols, rows),
        is_open_walk(o, cols, cols * rows, p),
    ensures
        q.len() == p.len(),
        forall|k: int| 0 <= k < q.len() ==> #[trigger] q[k] == transpose_index(p[k], cols, rows),
        is_open_walk(t, rows, rows * cols, q),
{
    let q = Seq::new(p.len(), |k: int| transpose_index(p[k], cols, rows));
    assert forall|k: int| 0 <= k < q.len() implies open_at(t, #[trigger] q[k]) && q[k] < rows * cols by {
        let i = p[k];
        assert(open_at(o, i) && i < cols * rows);
        lemma_transpose_index(i, cols, rows);
        assert(t[flat_index(rows, i % cols, i / cols)] == o[flat_index(cols, i / cols, i % cols)]);
    }
    assert forall|k: int| 0 <= k < q.len() - 1 implies #[trigger] flat_adjacent(rows, rows * cols, q[k], q[k + 1]) by {
        assert(flat_adjacent(cols, cols * rows, p[k], p[k + 1]));
        let a = p[k];
        let b = p[k + 1];
        if (b == a + 1 && b % cols != 0) || b == a + cols {
            lemma_transpose_step(cols, rows, a, b);
        } else {
            lemma_transpose_step(cols, rows, b, a);
        }
    }
    q
}

/// Transposing keeps connectivity in one direction.
proof fn lemma_transpose_connected(o: Seq<bool>, t: Seq<bool>, cols: int, rows: int)
    requires
        cols >= 0,
        rows >= 0,
        is_transpose(o, t, cols, rows),
        grid_connected(o, cols, rows),
    ensures
        grid_connected(t, rows, cols),
{
    if has_open_cell(t, rows, cols) {
        let j = choose|j: int| 0 <= j < rows * cols && open_at(t, j);
        assert(rows > 0 && cols > 0) by (nonlinear_arith)
            requires
                0 <= j < rows * cols,
                rows >= 0,
                cols >= 0,
        ;
        assert(cols * rows == rows * cols) by (nonlinear_arith);
        let jb = transpose_index(j, rows, cols);
        lemma_transpose_index(j, rows, cols);
        assert(t[flat_index(rows, jb % cols, jb / cols)] == o[flat_index(cols, jb / cols, jb % cols)]);
        lemma_transpose_index(jb, cols, rows);
        assert(open_at(o, jb));
        assert(has_open_cell(o, cols, rows));
        assert forall|a: int, b: int| open_at(t, a) && open_at(t, b) implies a < rows * cols && b < rows * cols
            && #[trigger] flat_connected(t, rows, rows * cols, a, b) by {
            let ab = transpose_index(a, rows, cols);
            let bb = transpose_index(b, rows, cols);
            lemma_transpose_index(a, rows, cols);
            lemma_transpose_index(b, rows, cols);
            lemma_transpose_index(ab, cols, rows);
            lemma_transpose_index(bb, cols, rows);
            assert(t[flat_index(rows, ab % cols, ab / cols)] == o[flat_index(cols, ab / cols, ab % cols)]);
            assert(t[flat_index(rows, bb % cols, bb / cols)] == o[flat_index(cols, bb / cols, bb % cols)]);
            assert(open_at(o, ab) && open_at(o, bb));
            assert(flat_connected(o, cols, cols * rows, ab, bb));
            let p = choose|p: Seq<int>| #[trigger] is_open_walk(o, cols, cols * rows, p) && p[0] == ab && p.last() == bb;
            let q = lemma_transpose_walk(o, t, cols, rows, p);
            assert(q[0] == a);
            assert(q[q.len() - 1] == b);
            assert(is_open_walk(t, rows, rows * cols, q));
        }
    }
}

/// Transposing the grid does not change whether its open cells are
/// connected: `o` of `rows` rows of `cols` cells is connected exactly when its
/// transpose, `cols` rows of `rows` cells, is.
pub proof fn lemma_connected_transpose_law(o: Seq<bool>, t: Seq<bool>, cols: int, rows: int)
    requires
        cols >= 0,
        rows >= 0,
        is_transpose(o, t, cols, rows),
    ensures
        grid_connected(o, cols, rows) == grid_connected(t, rows, cols),
{
    assert(cols * rows == rows * cols) by (nonlinear_arith);
    assert forall|r: int, c: int| 0 <= r < cols && 0 <= c < rows implies o[#[trigger] flat_index(cols, c, r)] == t[flat_index(
        rows,
        r,
        c,
    )] by {}
    assert(is_transpose(t, o, rows, cols));
    if grid_connected(o, cols, rows) {
        lemma_transpose_connected(o, t, cols, rows);
    }
    if grid_connected(t, rows, cols) {
        lemma_transpose_connected(t, o, rows, cols);
    }
}

} // verus!
