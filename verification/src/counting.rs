use vstd::prelude::*;

verus! {

/// Number of `true` entries of a sequence.
pub open spec fn count_true(s: Seq<bool>) -> nat
    decreases s.len(),
{
    if s.len() == 0 {
        0
    } else {
        count_true(s.drop_last()) + (if s.last() { 1nat } else { 0nat })
    }
}

/// Number of `false` entries of a sequence.
pub open spec fn count_false(s: Seq<bool>) -> nat
    decreases s.len(),
{
    if s.len() == 0 {
        0
    } else {
        count_false(s.drop_last()) + (if s.last() { 0nat } else { 1nat })
    }
}

/// Turning one `false` entry into `true` raises the count by one.
pub proof fn lemma_count_true_set(s: Seq<bool>, j: int)
    requires
        0 <= j < s.len(),
        !s[j],
    ensures
        count_true(s.update(j, true)) == count_true(s) + 1,
    decreases s.len(),
{
    let t = s.update(j, true);
    if j == s.len() - 1 {
        assert(t.drop_last() =~= s.drop_last());
    } else {
        assert(t.drop_last() =~= s.drop_last().update(j, true));
        lemma_count_true_set(s.drop_last(), j);
    }
}

pub proof fn lemma_count_true_bound(s: Seq<bool>)
    ensures
        count_true(s) <= s.len(),
    decreases s.len(),
{
    if s.len() > 0 {
        lemma_count_true_bound(s.drop_last());
    }
}

/// A sequence of `false` entries only has no `true` entry.
pub proof fn lemma_count_true_all_false(n: nat)
    ensures
        count_true(Seq::new(n, |i: int| false)) == 0,
    decreases n,
{
    if n > 0 {
        assert(Seq::new(n, |i: int| false).drop_last() =~= Seq::new((n - 1) as nat, |i: int| false));
        lemma_count_true_all_false((n - 1) as nat);
    }
}

/// When every marked position of `v` is a `false` position of `o`, the marks
/// are at most as many, and they are as many exactly when every `false`
/// position of `o` is marked.
pub proof fn lemma_count_marks_within(v: Seq<bool>, o: Seq<bool>)
    requires
        forall|i: int| 0 <= i < v.len() && #[trigger] v[i] ==> i < o.len() && !o[i],
    ensures
        count_true(v) <= count_false(o),
        (count_true(v) == count_false(o)) <==> (forall|i: int|
            0 <= i < o.len() && !#[trigger] o[i] ==> i < v.len() && v[i]),
    decreases v.len() + o.len(),
{
    if v.len() > o.len() {
        let n = v.len() - 1;
        assert(!v[n]);
        lemma_count_marks_within(v.drop_last(), o);
        assert forall|i: int| 0 <= i < o.len() && !o[i] implies (i < v.len() && v[i]) == (i < v.drop_last().len()
            && v.drop_last()[i]) by {}
    } else if o.len() == 0 {
    } else if v.len() < o.len() {
        lemma_count_marks_within(v, o.drop_last());
        if !o.last() {
            assert(!o[o.len() - 1]);
        } else {
            assert forall|i: int| 0 <= i < o.drop_last().len() && !o.drop_last()[i]
                <==> 0 <= i < o.len() - 1 && !o[i] by {}
        }
    } else {
        lemma_count_marks_within(v.drop_last(), o.drop_last());
        let n = o.len() - 1;
        if v.last() {
            assert(v[n] && !o[n]);
        } else if !o.last() {
            assert(!o[n] && !v[n]);
        }
        assert forall|i: int| 0 <= i < n implies (o.drop_last()[i] == o[i] && v.drop_last()[i] == v[i]) by {}
    }
}

} // verus!

verus! {

/// Number of entries equal to -1 (unlabelled cells).
pub open spec fn count_unlabelled(s: Seq<i32>) -> nat
    decreases s.len(),
{
    if s.len() == 0 {
        0
    } else {
        count_unlabelled(s.drop_last()) + (if s.last() == -1 { 1nat } else { 0nat })
    }
}

/// Number of -1 entries over all rows.
pub open spec fn grid_unlabelled(g: Seq<Vec<i32>>) -> nat
    decreases g.len(),
{
    if g.len() == 0 {
        0
    } else {
        grid_unlabelled(g.drop_last()) + count_unlabelled(g.last()@)
    }
}

pub proof fn lemma_unlabelled_set(s: Seq<i32>, j: int, v: i32)
    requires
        0 <= j < s.len(),
        s[j] == -1,
        v != -1,
    ensures
        count_unlabelled(s.update(j, v)) + 1 == count_unlabelled(s),
    decreases s.len(),
{
    let t = s.update(j, v);
    if j == s.len() - 1 {
        assert(t.drop_last() =~= s.drop_last());
    } else {
        assert(t.drop_last() =~= s.drop_last().update(j, v));
        lemma_unlabelled_set(s.drop_last(), j, v);
    }
}

/// Labelling one unlabelled cell lowers the grid count by one.
pub proof fn lemma_grid_unlabelled_set(g: Seq<Vec<i32>>, h: Seq<Vec<i32>>, r: int, j: int, v: i32)
    requires
        g.len() == h.len(),
        0 <= r < g.len(),
        0 <= j < g[r]@.len(),
        g[r]@[j] == -1,
        v != -1,
        h[r]@ == g[r]@.update(j, v),
        forall|i: int| 0 <= i < g.len() && i != r ==> h[i]@ == g[i]@,
    ensures
        grid_unlabelled(h) + 1 == grid_unlabelled(g),
    decreases g.len(),
{
    if r == g.len() - 1 {
        lemma_unlabelled_set(g[r]@, j, v);
        lemma_grid_unlabelled_same(g.drop_last(), h.drop_last());
    } else {
        lemma_grid_unlabelled_set(g.drop_last(), h.drop_last(), r, j, v);
        assert(h.last()@ == g.last()@);
    }
}

pub proof fn lemma_grid_unlabelled_same(g: Seq<Vec<i32>>, h: Seq<Vec<i32>>)
    requires
        g.len() == h.len(),
        forall|i: int| 0 <= i < g.len() ==> h[i]@ == g[i]@,
    ensures
        grid_unlabelled(h) == grid_unlabelled(g),
    decreases g.len(),
{
    if g.len() > 0 {
        lemma_grid_unlabelled_same(g.drop_last(), h.drop_last());
        assert(h.last()@ == g.last()@);
    }
}

} // verus!

verus! {

/// Clearing entries only lowers the count; clearing at least one lowers it
/// strictly.
pub proof fn lemma_count_true_subset(a: Seq<bool>, b: Seq<bool>)
    requires
        a.len() == b.len(),
        forall|i: int| 0 <= i < a.len() && #[trigger] a[i] ==> b[i],
    ensures
        count_true(a) <= count_true(b),
        (exists|i: int| 0 <= i < a.len() && b[i] && !#[trigger] a[i]) ==> count_true(a) < count_true(b),
    decreases a.len(),
{
    if a.len() > 0 {
        lemma_count_true_subset(a.drop_last(), b.drop_last());
        if exists|i: int| 0 <= i < a.len() && b[i] && !#[trigger] a[i] {
            let i = choose|i: int| 0 <= i < a.len() && b[i] && !#[trigger] a[i];
            if i < a.len() - 1 {
                assert(b.drop_last()[i] && !a.drop_last()[i]);
            }
        }
    }
}

/// Total number of `true` flags in a row of cells.
pub open spec fn row_flags(row: Seq<Vec<bool>>) -> nat
    decreases row.len(),
{
    if row.len() == 0 {
        0
    } else {
        row_flags(row.drop_last()) + count_true(row.last()@)
    }
}

/// Total number of `true` flags in a grid of cells.
pub open spec fn grid_flags(g: Seq<Vec<Vec<bool>>>) -> nat
    decreases g.len(),
{
    if g.len() == 0 {
        0
    } else {
        grid_flags(g.drop_last()) + row_flags(g.last()@)
    }
}

pub proof fn lemma_row_flags_change(a: Seq<Vec<bool>>, b: Seq<Vec<bool>>, c: int)
    requires
        a.len() == b.len(),
        0 <= c < a.len(),
        forall|i: int| 0 <= i < a.len() && i != c ==> (#[trigger] a[i])@ == b[i]@,
    ensures
        row_flags(a) - count_true(a[c]@) == row_flags(b) - count_true(b[c]@),
    decreases a.len(),
{
    if c < a.len() - 1 {
        lemma_row_flags_change(a.drop_last(), b.drop_last(), c);
        assert(a.last()@ == b.last()@);
    } else {
        lemma_row_flags_same(a.drop_last(), b.drop_last());
    }
}

pub proof fn lemma_row_flags_same(a: Seq<Vec<bool>>, b: Seq<Vec<bool>>)
    requires
        a.len() == b.len(),
        forall|i: int| 0 <= i < a.len() ==> (#[trigger] a[i])@ == b[i]@,
    ensures
        row_flags(a) == row_flags(b),
    decreases a.len(),
{
    if a.len() > 0 {
        lemma_row_flags_same(a.drop_last(), b.drop_last());
        assert(a.last()@ == b.last()@);
    }
}

pub proof fn lemma_grid_flags_change(a: Seq<Vec<Vec<bool>>>, b: Seq<Vec<Vec<bool>>>, r: int)
    requires
        a.len() == b.len(),
        0 <= r < a.len(),
        forall|i: int, j: int|
            0 <= i < a.len() && i != r && 0 <= j < a[i]@.len() ==> (#[trigger] a[i]@[j])@ == b[i]@[j]@,
        forall|i: int| 0 <= i < a.len() ==> (#[trigger] a[i])@.len() == b[i]@.len(),
    ensures
        grid_flags(a) - row_flags(a[r]@) == grid_flags(b) - row_flags(b[r]@),
    decreases a.len(),
{
    if r < a.len() - 1 {
        lemma_grid_flags_change(a.drop_last(), b.drop_last(), r);
        lemma_row_flags_same(a.last()@, b.last()@);
    } else {
        lemma_grid_flags_same(a.drop_last(), b.drop_last());
    }
}

pub proof fn lemma_grid_flags_same(a: Seq<Vec<Vec<bool>>>, b: Seq<Vec<Vec<bool>>>)
    requires
        a.len() == b.len(),
        forall|i: int, j: int| 0 <= i < a.len() && 0 <= j < a[i]@.len() ==> (#[trigger] a[i]@[j])@ == b[i]@[j]@,
        forall|i: int| 0 <= i < a.len() ==> (#[trigger] a[i])@.len() == b[i]@.len(),
    ensures
        grid_flags(a) == grid_flags(b),
    decreases a.len(),
{
    if a.len() > 0 {
        lemma_grid_flags_same(a.drop_last(), b.drop_last());
        lemma_row_flags_same(a.last()@, b.last()@);
    }
}

} // verus!
