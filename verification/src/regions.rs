//! Labelling of the 4-connected open regions of a wall grid, and which
//! regions lie close to each other across thin walls.
use std::collections::VecDeque;
use vstd::prelude::*;
use crate::counting::{grid_unlabelled, lemma_grid_unlabelled_set};
use crate::grid::{
    adjacent, before, cell, connected, in_grid, is_open, label_rows_cover, lemma_closed_set_holds_region,
    lemma_connected_extend, lemma_connected_open, lemma_connected_refl, lemma_connected_symm,
    lemma_connected_trans, rows_cover,
};

verus! {

/// Label of cell `a`.
pub open spec fn lab(labels: Seq<Vec<i32>>, a: (int, int)) -> i32 {
    labels[a.0]@[a.1]
}

/// A `rows` by `cols` grid of labels.
pub open spec fn labels_rect(labels: Seq<Vec<i32>>, rows: int, cols: int) -> bool {
    labels.len() == rows && forall|r: int| 0 <= r < rows ==> (#[trigger] labels[r])@.len() == cols
}

/// What a finished labelling promises: walls carry -1, open cells carry a
/// label below `n`, two open cells share a label exactly when they are
/// connected, every label below `n` is used, and labels are numbered in the
/// order in which a row-major scan meets their regions.
pub open spec fn is_region_labelling(g: Seq<Vec<bool>>, cols: int, labels: Seq<Vec<i32>>, n: int) -> bool {
    &&& labels_rect(labels, g.len() as int, cols)
    &&& forall|a: (int, int)|
        in_grid(g.len() as int, cols, a) && #[trigger] cell(g, a) ==> lab(labels, a) == -1
    &&& forall|a: (int, int)| #[trigger] is_open(g, cols, a) ==> 0 <= lab(labels, a) < n
    &&& forall|a: (int, int), b: (int, int)|
        is_open(g, cols, a) && is_open(g, cols, b) ==> ((lab(labels, a) == lab(labels, b))
            <==> #[trigger] connected(g, cols, a, b))
    &&& forall|k: int| 0 <= k < n ==> #[trigger] label_used(g, cols, labels, k)
    &&& forall|a: (int, int)|
        #[trigger] is_open(g, cols, a) && lab(labels, a) > 0 ==> exists|b: (int, int)|
            is_open(g, cols, b) && before(b, a) && #[trigger] lab(labels, b) == lab(labels, a) - 1
}

/// Some open cell carries label `k`.
pub open spec fn label_used(g: Seq<Vec<bool>>, cols: int, labels: Seq<Vec<i32>>, k: int) -> bool {
    exists|a: (int, int)| #[trigger] is_open(g, cols, a) && lab(labels, a) == k
}

/// State of one flood fill from `start` with label `next` over labels that
/// were `prior` when the fill began.
spec fn fill_state(
    g: Seq<Vec<bool>>,
    cols: int,
    prior: Seq<Vec<i32>>,
    labels: Seq<Vec<i32>>,
    queue: Seq<(usize, usize)>,
    start: (int, int),
    next: i32,
) -> bool {
    &&& labels_rect(labels, g.len() as int, cols)
    &&& forall|a: (int, int)|
        in_grid(g.len() as int, cols, a) && #[trigger] lab(labels, a) == next ==> connected(g, cols, start, a)
    &&& forall|a: (int, int)|
        in_grid(g.len() as int, cols, a) && lab(labels, a) != next ==> #[trigger] lab(labels, a) == lab(prior, a)
    &&& forall|i: int|
        0 <= i < queue.len() ==> in_grid(g.len() as int, cols, (#[trigger] queue[i].0 as int, queue[i].1 as int))
            && lab(labels, (queue[i].0 as int, queue[i].1 as int)) == next
}

/// Every cell carrying `next` and no longer queued has all its open
/// neighbours labelled `next`.
spec fn fill_closed(
    g: Seq<Vec<bool>>,
    cols: int,
    labels: Seq<Vec<i32>>,
    queue: Seq<(usize, usize)>,
    next: i32,
) -> bool {
    forall|p: (int, int), q: (int, int)|
        in_grid(g.len() as int, cols, p) && #[trigger] lab(labels, p) == next && !queue.contains(
            (p.0 as usize, p.1 as usize),
        ) && adjacent(p, q) && #[trigger] is_open(g, cols, q) ==> lab(labels, q) == next
}

/// Labels cell `(nr, nc)` with `next` and queues it when it is open and still
/// unlabelled.
fn label_neighbor(
    wall_grid: &[Vec<bool>],
    labels: &mut Vec<Vec<i32>>,
    queue: &mut VecDeque<(usize, usize)>,
    nr: usize,
    nc: usize,
    next: i32,
    Ghost(cols): Ghost<int>,
    Ghost(prior): Ghost<Seq<Vec<i32>>>,
    Ghost(start): Ghost<(int, int)>,
    Ghost(from): Ghost<(int, int)>,
)
    requires
        rows_cover(wall_grid@, cols),
        in_grid(wall_grid@.len() as int, cols, (nr as int, nc as int)),
        in_grid(wall_grid@.len() as int, cols, from),
        adjacent(from, (nr as int, nc as int)),
        lab(old(labels)@, from) == next,
        next >= 0,
        fill_state(wall_grid@, cols, prior, old(labels)@, old(queue)@, start, next),
    ensures
        fill_state(wall_grid@, cols, prior, final(labels)@, final(queue)@, start, next),
        is_open(wall_grid@, cols, (nr as int, nc as int)) && lab(old(labels)@, (nr as int, nc as int))
            == -1 ==> lab(final(labels)@, (nr as int, nc as int)) == next,
        forall|a: (int, int)|
            in_grid(wall_grid@.len() as int, cols, a) && #[trigger] lab(old(labels)@, a) != -1
                ==> lab(final(labels)@, a) == lab(old(labels)@, a),
        forall|a: (int, int)|
            in_grid(wall_grid@.len() as int, cols, a) && #[trigger] lab(final(labels)@, a) != lab(
                old(labels)@,
                a,
            ) ==> a == (nr as int, nc as int) && final(queue)@.contains((nr, nc)),
        final(queue)@.len() >= old(queue)@.len(),
        final(queue)@.subrange(0, old(queue)@.len() as int) == old(queue)@,
        final(queue)@.len() > old(queue)@.len() ==> lab(old(labels)@, (nr as int, nc as int)) == -1
            && lab(final(labels)@, (nr as int, nc as int)) == next,
        final(queue)@.len() <= old(queue)@.len() + 1,
        final(queue)@.len() == old(queue)@.len() ==> final(labels)@ == old(labels)@,
        final(queue)@.len() > old(queue)@.len() ==> grid_unlabelled(final(labels)@) + 1 == grid_unlabelled(
            old(labels)@,
        ),
{
    let ghost g = wall_grid@;
    let ghost target = (nr as int, nc as int);
    if !wall_grid[nr][nc] && labels[nr][nc] == -1 {
        proof {
            lemma_connected_extend(g, cols, start, from, target);
        }
        let ghost l0 = labels@;
        labels[nr].set(nc, next);
        queue.push_back((nr, nc));
        proof {
            assert(next != -1) by {
                assert(lab(l0, from) == next);
                assert(lab(l0, target) == -1);
            }
            lemma_grid_unlabelled_set(l0, labels@, nr as int, nc as int, next);
            assert(queue@.subrange(0, old(queue)@.len() as int) =~= old(queue)@);
            assert(queue@[queue@.len() - 1] == (nr, nc));
            assert forall|a: (int, int)| in_grid(g.len() as int, cols, a) && a != target implies lab(
                labels@,
                a,
            ) == lab(old(labels)@, a) by {
                if a.0 == nr as int {
                    assert(labels@[a.0]@ == old(labels)@[a.0]@.update(nc as int, next));
                }
            }
            assert forall|i: int| 0 <= i < queue@.len() implies in_grid(
                g.len() as int,
                cols,
                (#[trigger] queue@[i].0 as int, queue@[i].1 as int),
            ) && lab(labels@, (queue@[i].0 as int, queue@[i].1 as int)) == next by {
                if i < old(queue)@.len() {
                    assert(queue@[i] == old(queue)@[i]);
                }
            }
        }
    } else {
        proof {
            assert(queue@.subrange(0, old(queue)@.len() as int) =~= old(queue)@);
        }
    }
}

/// Flood-fills the region of `(sr, sc)` with the label `next`.
fn fill_region(
    wall_grid: &[Vec<bool>],
    labels: &mut Vec<Vec<i32>>,
    sr: usize,
    sc: usize,
    next: i32,
    cols: usize,
)
    requires
        rows_cover(wall_grid@, cols as int),
        labels_rect(old(labels)@, wall_grid@.len() as int, cols as int),
        is_open(wall_grid@, cols as int, (sr as int, sc as int)),
        lab(old(labels)@, (sr as int, sc as int)) == -1,
        next >= 0,
        forall|a: (int, int)|
            in_grid(wall_grid@.len() as int, cols as int, a) ==> -1 <= #[trigger] lab(old(labels)@, a) < next,
        forall|a: (int, int), b: (int, int)|
            in_grid(wall_grid@.len() as int, cols as int, a) && lab(old(labels)@, a) >= 0
                && #[trigger] connected(wall_grid@, cols as int, a, b) ==> lab(old(labels)@, b) == lab(
                old(labels)@,
                a,
            ),
    ensures
        labels_rect(final(labels)@, wall_grid@.len() as int, cols as int),
        forall|a: (int, int)|
            in_grid(wall_grid@.len() as int, cols as int, a) ==> #[trigger] lab(final(labels)@, a) == if connected(
                wall_grid@,
                cols as int,
                (sr as int, sc as int),
                a,
            ) {
                next
            } else {
                lab(old(labels)@, a)
            },
{
    let ghost g = wall_grid@;
    let ghost prior = labels@;
    let ghost start = (sr as int, sc as int);
    let ghost ci = cols as int;
    let rows = wall_grid.len();
    let mut queue: VecDeque<(usize, usize)> = VecDeque::new();
    queue.push_back((sr, sc));
    labels[sr].set(sc, next);
    proof {
        lemma_connected_refl(g, ci, start);
        assert(queue@[0] == (sr, sc));
        assert forall|r: int| 0 <= r < rows implies (#[trigger] labels@[r])@.len() == ci by {
            if r == sr as int {
                assert(labels@[r]@ == prior[r]@.update(sc as int, next));
            }
        }
        assert forall|a: (int, int)| in_grid(g.len() as int, ci, a) && a != start implies lab(labels@, a)
            == lab(prior, a) by {
            if a.0 == sr as int {
                assert(labels@[a.0]@ == prior[a.0]@.update(sc as int, next));
            }
        }
        assert forall|a: (int, int)|
            in_grid(g.len() as int, ci, a) && #[trigger] lab(labels@, a) == next implies connected(g, ci, start, a) by {
            if a != start {
                assert(lab(labels@, a) == lab(prior, a));
            }
        }
        assert forall|a: (int, int)|
            in_grid(g.len() as int, ci, a) && lab(labels@, a) != next implies #[trigger] lab(labels@, a) == lab(prior, a) by {
            if a == start {
            }
        }
        assert forall|i: int| 0 <= i < queue@.len() implies in_grid(g.len() as int, ci,
            (#[trigger] queue@[i].0 as int, queue@[i].1 as int)) && lab(labels@, (queue@[i].0 as int, queue@[i].1 as int)) == next by {
            assert(i == 0);
        }
        assert(fill_state(g, ci, prior, labels@, queue@, start, next));
        assert forall|p: (int, int), q: (int, int)|
            in_grid(g.len() as int, ci, p) && #[trigger] lab(labels@, p) == next && !queue@.contains(
                (p.0 as usize, p.1 as usize),
            ) && adjacent(p, q) && #[trigger] is_open(g, ci, q) implies lab(labels@, q) == next by {
            if p != start {
                assert(lab(prior, p) < next);
            } else {
                assert(queue@[0] == (p.0 as usize, p.1 as usize));
            }
        }
    }
    while queue.len() > 0
        invariant
            g == wall_grid@,
            ci == cols as int,
            rows == g.len(),
            rows_cover(g, ci),
            next >= 0,
            labels_rect(prior, rows as int, ci),
            forall|a: (int, int)| in_grid(rows as int, ci, a) ==> -1 <= #[trigger] lab(prior, a) < next,
            forall|a: (int, int), b: (int, int)|
                in_grid(rows as int, ci, a) && lab(prior, a) >= 0 && #[trigger] connected(g, ci, a, b)
                    ==> lab(prior, b) == lab(prior, a),
            lab(prior, start) == -1,
            start == (sr as int, sc as int),
            is_open(g, ci, start),
            lab(labels@, start) == next,
            fill_state(g, ci, prior, labels@, queue@, start, next),
            fill_closed(g, ci, labels@, queue@, next),
        decreases grid_unlabelled(labels@), queue@.len(),
    {
        let ghost l0 = labels@;
        let ghost q0 = queue@;
        let (r, c) = queue.pop_front().unwrap();
        let ghost q1 = queue@;
        let ghost from = (r as int, c as int);
        proof {
            assert(q0[0] == (r, c));
            assert(q0 =~= seq![(r, c)].add(q1));
            assert forall|i: int| 0 <= i < q1.len() implies in_grid(
                g.len() as int,
                ci,
                (#[trigger] q1[i].0 as int, q1[i].1 as int),
            ) && lab(labels@, (q1[i].0 as int, q1[i].1 as int)) == next by {
                assert(q1[i] == q0[i + 1]);
            }
        }
        if r > 0 {
            label_neighbor(wall_grid, labels, &mut queue, r - 1, c, next, Ghost(ci), Ghost(prior), Ghost(start), Ghost(from));
        }
        let ghost l1 = labels@;
        let ghost qa = queue@;
        proof { assert(qa.subrange(0, q1.len() as int) =~= q1); }
        if r + 1 < rows {
            label_neighbor(wall_grid, labels, &mut queue, r + 1, c, next, Ghost(ci), Ghost(prior), Ghost(start), Ghost(from));
        }
        let ghost l2 = labels@;
        let ghost qb = queue@;
        proof { assert(qb.subrange(0, qa.len() as int) =~= qa); }
        if c > 0 {
            label_neighbor(wall_grid, labels, &mut queue, r, c - 1, next, Ghost(ci), Ghost(prior), Ghost(start), Ghost(from));
        }
        let ghost l3 = labels@;
        let ghost qc = queue@;
        proof { assert(qc.subrange(0, qb.len() as int) =~= qb); }
        if c + 1 < cols {
            label_neighbor(wall_grid, labels, &mut queue, r, c + 1, next, Ghost(ci), Ghost(prior), Ghost(start), Ghost(from));
        }
        proof {
            assert(queue@.subrange(0, qc.len() as int) =~= qc);
            lemma_fill_round(g, ci, prior, start, next, from, l0, l1, l2, l3, labels@, q0, q1, qa, qb, qc, queue@);
        }
    }
    proof {
        let member = |a: (int, int)| in_grid(g.len() as int, ci, a) && lab(labels@, a) == next;
        assert forall|p: (int, int), q: (int, int)|
            #[trigger] member(p) && is_open(g, ci, p) && adjacent(p, q) && is_open(g, ci, q) implies #[trigger] member(q) by {
            assert(!queue@.contains((p.0 as usize, p.1 as usize)));
        }
        assert forall|a: (int, int)|
            in_grid(g.len() as int, ci, a) implies #[trigger] lab(labels@, a) == if connected(g, ci, start, a) {
                next
            } else {
                lab(prior, a)
            } by {
            if connected(g, ci, start, a) {
                assert(member(start));
                lemma_closed_set_holds_region(g, ci, member, start, a);
            }
        }
    }
}

/// One round of the flood fill keeps every finished cell's open neighbours
/// labelled.
proof fn lemma_fill_round(
    g: Seq<Vec<bool>>,
    cols: int,
    prior: Seq<Vec<i32>>,
    start: (int, int),
    next: i32,
    from: (int, int),
    l0: Seq<Vec<i32>>,
    l1: Seq<Vec<i32>>,
    l2: Seq<Vec<i32>>,
    l3: Seq<Vec<i32>>,
    l4: Seq<Vec<i32>>,
    q0: Seq<(usize, usize)>,
    q1: Seq<(usize, usize)>,
    qa: Seq<(usize, usize)>,
    qb: Seq<(usize, usize)>,
    qc: Seq<(usize, usize)>,
    q4: Seq<(usize, usize)>,
)
    requires
        in_grid(g.len() as int, cols, from),
        g.len() <= usize::MAX,
        cols <= usize::MAX,
        forall|a: (int, int)| in_grid(g.len() as int, cols, a) ==> -1 <= #[trigger] lab(prior, a),
        q0 =~= seq![(from.0 as usize, from.1 as usize)].add(q1),
        lab(l0, from) == next,
        labels_rect(prior, g.len() as int, cols),
        labels_rect(l0, g.len() as int, cols),
        forall|a: (int, int), b: (int, int)|
            in_grid(g.len() as int, cols, a) && lab(prior, a) >= 0 && #[trigger] connected(g, cols, a, b)
                ==> lab(prior, b) == lab(prior, a),
        lab(prior, start) == -1,
        fill_state(g, cols, prior, l0, q0, start, next),
        fill_closed(g, cols, l0, q0, next),
        fill_state(g, cols, prior, l4, q4, start, next),
        forall|a: (int, int)| in_grid(g.len() as int, cols, a) && #[trigger] lab(l0, a) != -1 ==> lab(l1, a) == lab(l0, a),
        forall|a: (int, int)| in_grid(g.len() as int, cols, a) && #[trigger] lab(l1, a) != -1 ==> lab(l2, a) == lab(l1, a),
        forall|a: (int, int)| in_grid(g.len() as int, cols, a) && #[trigger] lab(l2, a) != -1 ==> lab(l3, a) == lab(l2, a),
        forall|a: (int, int)| in_grid(g.len() as int, cols, a) && #[trigger] lab(l3, a) != -1 ==> lab(l4, a) == lab(l3, a),
        forall|a: (int, int)| in_grid(g.len() as int, cols, a) && #[trigger] lab(l1, a) != lab(l0, a) ==> qa.contains((a.0 as usize, a.1 as usize)),
        forall|a: (int, int)| in_grid(g.len() as int, cols, a) && #[trigger] lab(l2, a) != lab(l1, a) ==> qb.contains((a.0 as usize, a.1 as usize)),
        forall|a: (int, int)| in_grid(g.len() as int, cols, a) && #[trigger] lab(l3, a) != lab(l2, a) ==> qc.contains((a.0 as usize, a.1 as usize)),
        forall|a: (int, int)| in_grid(g.len() as int, cols, a) && #[trigger] lab(l4, a) != lab(l3, a) ==> q4.contains((a.0 as usize, a.1 as usize)),
        qa.len() >= q1.len() && qa.subrange(0, q1.len() as int) == q1,
        qb.len() >= qa.len() && qb.subrange(0, qa.len() as int) == qa,
        qc.len() >= qb.len() && qc.subrange(0, qb.len() as int) == qb,
        q4.len() >= qc.len() && q4.subrange(0, qc.len() as int) == qc,
        // the open unlabelled neighbours of `from` received `next`
        forall|q: (int, int)|
            adjacent(from, q) && #[trigger] is_open(g, cols, q) && lab(l0, q) == -1 ==> lab(l4, q) == next,
    ensures
        fill_closed(g, cols, l4, q4, next),
{
    assert forall|s: Seq<(usize, usize)>, u: Seq<(usize, usize)>, x: (usize, usize)|
        u.len() >= s.len() && u.subrange(0, s.len() as int) == s && #[trigger] s.contains(x)
            implies #[trigger] u.contains(x) by {
        let k = choose|k: int| 0 <= k < s.len() && s[k] == x;
        assert(u.subrange(0, s.len() as int)[k] == x);
    }
    assert forall|p: (int, int), q: (int, int)|
        in_grid(g.len() as int, cols, p) && #[trigger] lab(l4, p) == next && !q4.contains(
            (p.0 as usize, p.1 as usize),
        ) && adjacent(p, q) && #[trigger] is_open(g, cols, q) implies lab(l4, q) == next by {
        let key = (p.0 as usize, p.1 as usize);
        if lab(l3, p) != lab(l4, p) {
        } else if lab(l2, p) != lab(l3, p) {
            assert(q4.contains(key));
        } else if lab(l1, p) != lab(l2, p) {
            assert(qc.contains(key));
            assert(q4.contains(key));
        } else if lab(l0, p) != lab(l1, p) {
            assert(qb.contains(key));
            assert(qc.contains(key));
            assert(q4.contains(key));
        } else if p == from {
            if lab(l0, q) == -1 {
            } else if lab(l0, q) != next {
                // q already belongs to an earlier region that touches `start`
                assert(lab(l0, q) == lab(prior, q));
                assert(connected(g, cols, start, from));
                lemma_connected_open(g, cols, start, from);
                lemma_connected_extend(g, cols, start, from, q);
                lemma_connected_symm(g, cols, start, q);
                assert(lab(prior, start) == lab(prior, q));
                assert(false);
            }
        } else {
            if q0.contains(key) {
                let k = choose|k: int| 0 <= k < q0.len() && q0[k] == key;
                assert(q0[0] == (from.0 as usize, from.1 as usize));
                assert(k > 0);
                assert(q1[k - 1] == key);
                assert(q1.contains(key));
                assert(qa.contains(key));
                assert(qb.contains(key));
                assert(qc.contains(key));
                assert(q4.contains(key));
            }
            assert(lab(l0, q) == next);
        }
    }
}

/// Invariant of the row-major scan that starts a new region at every open
/// cell still unlabelled; `pos` is the next cell to be scanned.
spec fn scan_state(
    g: Seq<Vec<bool>>,
    cols: int,
    labels: Seq<Vec<i32>>,
    next: int,
    starts: Seq<(int, int)>,
    pos: (int, int),
) -> bool {
    let rows = g.len() as int;
    &&& labels_rect(labels, rows, cols)
    &&& forall|a: (int, int)| in_grid(rows, cols, a) && #[trigger] cell(g, a) ==> lab(labels, a) == -1
    &&& forall|a: (int, int)| in_grid(rows, cols, a) ==> -1 <= #[trigger] lab(labels, a) < next
    &&& forall|a: (int, int), b: (int, int)|
        in_grid(rows, cols, a) && lab(labels, a) >= 0 && #[trigger] connected(g, cols, a, b) ==> lab(labels, b)
            == lab(labels, a)
    &&& forall|a: (int, int), b: (int, int)|
        in_grid(rows, cols, a) && in_grid(rows, cols, b) && lab(labels, a) >= 0 && #[trigger] lab(labels, a)
            == #[trigger] lab(labels, b) ==> connected(g, cols, a, b)
    &&& starts.len() == next
    &&& forall|k: int|
        0 <= k < next ==> in_grid(rows, cols, #[trigger] starts[k]) && lab(labels, starts[k]) == k && before(
            starts[k],
            pos,
        )
    &&& forall|j: int, k: int| 0 <= j < k < next ==> before(#[trigger] starts[j], #[trigger] starts[k])
    &&& forall|a: (int, int)|
        in_grid(rows, cols, a) && #[trigger] lab(labels, a) >= 0 ==> !before(a, starts[lab(labels, a) as int])
    &&& forall|a: (int, int)|
        in_grid(rows, cols, a) && before(a, pos) && #[trigger] is_open(g, cols, a) ==> lab(labels, a) >= 0
}

/// Starting a region at `pos` and filling it keeps the scan invariant, with
/// `pos` now scanned.
proof fn lemma_scan_after_fill(
    g: Seq<Vec<bool>>,
    cols: int,
    l0: Seq<Vec<i32>>,
    l1: Seq<Vec<i32>>,
    next: int,
    starts: Seq<(int, int)>,
    pos: (int, int),
)
    requires
        scan_state(g, cols, l0, next, starts, pos),
        in_grid(g.len() as int, cols, pos),
        is_open(g, cols, pos),
        lab(l0, pos) == -1,
        next >= 0,
        labels_rect(l1, g.len() as int, cols),
        forall|a: (int, int)|
            in_grid(g.len() as int, cols, a) ==> #[trigger] lab(l1, a) == if connected(g, cols, pos, a) {
                next as i32
            } else {
                lab(l0, a)
            },
        next < i32::MAX,
    ensures
        scan_state(g, cols, l1, next + 1, starts.push(pos), (pos.0, pos.1 + 1)),
{
    let rows = g.len() as int;
    let st = starts.push(pos);
    let npos = (pos.0, pos.1 + 1);
    // no earlier region reaches `pos`
    assert forall|a: (int, int)| in_grid(rows, cols, a) && lab(l0, a) >= 0 implies !#[trigger] connected(
        g,
        cols,
        pos,
        a,
    ) by {
        if connected(g, cols, pos, a) {
            lemma_connected_symm(g, cols, pos, a);
        }
    }
    assert forall|a: (int, int)| in_grid(rows, cols, a) && #[trigger] cell(g, a) implies lab(l1, a) == -1 by {
        if connected(g, cols, pos, a) {
            lemma_connected_open(g, cols, pos, a);
        }
    }
    assert forall|a: (int, int)| in_grid(rows, cols, a) implies -1 <= #[trigger] lab(l1, a) < next + 1 by {}
    assert forall|a: (int, int), b: (int, int)|
        in_grid(rows, cols, a) && lab(l1, a) >= 0 && #[trigger] connected(g, cols, a, b) implies lab(l1, b)
        == lab(l1, a) by {
        lemma_connected_open(g, cols, a, b);
        if connected(g, cols, pos, a) {
            lemma_connected_trans(g, cols, pos, a, b);
        } else {
            assert(lab(l0, a) >= 0);
            if connected(g, cols, pos, b) {
                lemma_connected_symm(g, cols, a, b);
                lemma_connected_trans(g, cols, pos, b, a);
            }
        }
    }
    assert forall|a: (int, int), b: (int, int)|
        in_grid(rows, cols, a) && in_grid(rows, cols, b) && lab(l1, a) >= 0 && #[trigger] lab(l1, a)
            == #[trigger] lab(l1, b) implies connected(g, cols, a, b) by {
        if connected(g, cols, pos, a) {
            if connected(g, cols, pos, b) {
                lemma_connected_symm(g, cols, pos, a);
                lemma_connected_trans(g, cols, a, pos, b);
            } else {
                assert(lab(l0, b) < next);
            }
        } else if connected(g, cols, pos, b) {
            assert(lab(l0, a) < next);
        } else {
            assert(lab(l0, a) == lab(l0, b));
        }
    }
    assert forall|k: int|
        0 <= k < next + 1 implies in_grid(rows, cols, #[trigger] st[k]) && lab(l1, st[k]) == k && before(
        st[k],
        npos,
    ) by {
        if k < next {
            assert(st[k] == starts[k]);
            assert(lab(l0, starts[k]) == k);
        } else {
            lemma_connected_refl(g, cols, pos);
        }
    }
    assert forall|j: int, k: int| 0 <= j < k < next + 1 implies before(#[trigger] st[j], #[trigger] st[k]) by {
        if k < next {
            assert(st[j] == starts[j] && st[k] == starts[k]);
        } else {
            assert(st[j] == starts[j]);
        }
    }
    assert forall|a: (int, int)| in_grid(rows, cols, a) && #[trigger] lab(l1, a) >= 0 implies !before(
        a,
        st[lab(l1, a) as int],
    ) by {
        if connected(g, cols, pos, a) {
            lemma_connected_open(g, cols, pos, a);
            if before(a, pos) {
                assert(lab(l0, a) >= 0);
            }
        } else {
            assert(st[lab(l0, a) as int] == starts[lab(l0, a) as int]);
        }
    }
    assert forall|a: (int, int)|
        in_grid(rows, cols, a) && before(a, npos) && #[trigger] is_open(g, cols, a) implies lab(l1, a) >= 0 by {
        if a == pos {
            lemma_connected_refl(g, cols, pos);
        } else {
            assert(before(a, pos));
        }
    }
}

/// Scanning a wall or an already labelled cell changes nothing but `pos`.
proof fn lemma_scan_skip(
    g: Seq<Vec<bool>>,
    cols: int,
    labels: Seq<Vec<i32>>,
    next: int,
    starts: Seq<(int, int)>,
    pos: (int, int),
)
    requires
        scan_state(g, cols, labels, next, starts, pos),
        in_grid(g.len() as int, cols, pos),
        !is_open(g, cols, pos) || lab(labels, pos) != -1,
    ensures
        scan_state(g, cols, labels, next, starts, (pos.0, pos.1 + 1)),
{
    let rows = g.len() as int;
    let npos = (pos.0, pos.1 + 1);
    assert forall|a: (int, int)|
        in_grid(rows, cols, a) && before(a, npos) && #[trigger] is_open(g, cols, a) implies lab(labels, a) >= 0 by {
        if a != pos {
            assert(before(a, pos));
        }
    }
    assert forall|k: int| 0 <= k < next implies before(#[trigger] starts[k], npos) by {
        assert(before(starts[k], pos));
    }
}

/// Moving from the end of one row to the start of the next.
proof fn lemma_scan_next_row(
    g: Seq<Vec<bool>>,
    cols: int,
    labels: Seq<Vec<i32>>,
    next: int,
    starts: Seq<(int, int)>,
    row: int,
)
    requires
        scan_state(g, cols, labels, next, starts, (row, cols)),
    ensures
        scan_state(g, cols, labels, next, starts, (row + 1, 0)),
{
    let rows = g.len() as int;
    assert forall|k: int| 0 <= k < next implies before(#[trigger] starts[k], (row + 1, 0)) by {
        assert(in_grid(rows, cols, starts[k]));
        assert(before(starts[k], (row, cols)));
    }
    assert forall|a: (int, int)|
        in_grid(rows, cols, a) && before(a, (row + 1, 0)) && #[trigger] is_open(g, cols, a) implies lab(
        labels,
        a,
    ) >= 0 by {
        assert(before(a, (row, cols)));
    }
}

/// Labels every 4-connected open region of `wall_grid`; walls keep -1.
/// Returns the labels and the number of regions.
pub fn label_open_regions(wall_grid: &[Vec<bool>]) -> (res: (Vec<Vec<i32>>, usize))
    requires
        wall_grid@.len() >= 1,
        rows_cover(wall_grid@, wall_grid@[0]@.len() as int),
        wall_grid@.len() * wall_grid@[0]@.len() <= i32::MAX,
    ensures
        is_region_labelling(wall_grid@, wall_grid@[0]@.len() as int, res.0@, res.1 as int),
{
    let ghost g = wall_grid@;
    let rows = wall_grid.len();
    let cols = wall_grid[0].len();
    let ghost ci = cols as int;
    let mut labels: Vec<Vec<i32>> = Vec::new();
    let mut r: usize = 0;
    while r < rows
        invariant
            r <= rows,
            labels@.len() == r,
            forall|i: int| 0 <= i < r ==> (#[trigger] labels@[i])@ == Seq::new(cols as nat, |j: int| -1i32),
        decreases rows - r,
    {
        let row = vec![-1i32; cols];
        proof {
            assert(row@ =~= Seq::new(cols as nat, |j: int| -1i32));
        }
        labels.push(row);
        r = r + 1;
    }
    let mut next: i32 = 0;
    let ghost mut starts: Seq<(int, int)> = seq![];
    let ghost mut scanned: int = 0;
    proof {
        assert(scan_state(g, ci, labels@, 0, starts, (0, 0)));
    }
    let mut sr: usize = 0;
    while sr < rows
        invariant
            g == wall_grid@,
            rows == g.len(),
            ci == cols as int,
            cols == g[0]@.len(),
            rows_cover(g, ci),
            rows * cols <= i32::MAX,
            sr <= rows,
            0 <= next,
            next as int <= scanned,
            scanned == sr * cols,
            scan_state(g, ci, labels@, next as int, starts, (sr as int, 0)),
        decreases rows - sr,
    {
        let mut sc: usize = 0;
        while sc < cols
            invariant
                g == wall_grid@,
                rows == g.len(),
                ci == cols as int,
                rows_cover(g, ci),
                rows * cols <= i32::MAX,
                sr < rows,
                sc <= cols,
                0 <= next,
                next as int <= scanned,
                scanned == sr * cols + sc,
                scan_state(g, ci, labels@, next as int, starts, (sr as int, sc as int)),
            decreases cols - sc,
        {
            let ghost pos = (sr as int, sc as int);
            proof {
                assert(scanned < rows * cols) by (nonlinear_arith)
                    requires
                        scanned == sr * cols + sc,
                        sr < rows,
                        sc < cols,
                ;
            }
            if !wall_grid[sr][sc] && labels[sr][sc] == -1 {
                let ghost l0 = labels@;
                fill_region(wall_grid, &mut labels, sr, sc, next, cols);
                proof {
                    lemma_scan_after_fill(g, ci, l0, labels@, next as int, starts, pos);
                    starts = starts.push(pos);
                }
                next = next + 1;
            } else {
                proof {
                    lemma_scan_skip(g, ci, labels@, next as int, starts, pos);
                }
            }
            sc = sc + 1;
            proof {
                scanned = scanned + 1;
            }
        }
        proof {
            lemma_scan_next_row(g, ci, labels@, next as int, starts, sr as int);
            assert(scanned == (sr + 1) * cols) by (nonlinear_arith)
                requires
                    scanned == sr * cols + cols,
            ;
        }
        sr = sr + 1;
    }
    proof {
        let n = next as int;
        let l = labels@;
        assert forall|a: (int, int)| #[trigger] is_open(g, ci, a) implies 0 <= lab(l, a) < n by {
            assert(before(a, (rows as int, 0)));
        }
        assert forall|a: (int, int), b: (int, int)|
            is_open(g, ci, a) && is_open(g, ci, b) implies ((lab(l, a) == lab(l, b)) <==> #[trigger] connected(
            g,
            ci,
            a,
            b,
        )) by {
            assert(before(a, (rows as int, 0)));
        }
        assert forall|k: int| 0 <= k < n implies #[trigger] label_used(g, ci, l, k) by {
            assert(in_grid(rows as int, ci, starts[k]) && lab(l, starts[k]) == k);
            assert(is_open(g, ci, starts[k]));
        }
        assert forall|a: (int, int)| #[trigger] is_open(g, ci, a) && lab(l, a) > 0 implies exists|b: (int, int)|
            is_open(g, ci, b) && before(b, a) && #[trigger] lab(l, b) == lab(l, a) - 1 by {
            let k = lab(l, a) as int;
            assert(before(starts[k - 1], starts[k]));
            assert(!before(a, starts[k]));
            let b = starts[k - 1];
            assert(lab(l, b) == k - 1);
            assert(is_open(g, ci, b));
            assert(before(b, a));
        }
    }
    (labels, next as usize)
}

} // verus!
