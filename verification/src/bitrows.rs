//! Rows and grids of booleans: the representation of terminal sets.
//!
//! A row is a `Vec<bool>` indexed by symbol id; a grid is one row per
//! non-terminal. The fixed-point computations grow these monotonically, so
//! the utilities here are counting (for termination measures), pointwise
//! ordering, and in-place-style unions that report whether anything was
//! added.

use vstd::prelude::*;

verus! {

/// How many entries of the row are set.
pub open spec fn count_true(s: Seq<bool>) -> int
    decreases s.len(),
{
    if s.len() == 0 {
        0
    } else {
        count_true(s.drop_last()) + if s.last() {
            1int
        } else {
            0int
        }
    }
}

/// Every set entry of `a` is set in `b` (rows of equal length).
pub open spec fn row_le(a: Seq<bool>, b: Seq<bool>) -> bool {
    forall|t: int| 0 <= t < a.len() && #[trigger] a[t] ==> b[t]
}

pub proof fn lemma_count_true_bounds(s: Seq<bool>)
    ensures
        0 <= count_true(s) <= s.len(),
    decreases s.len(),
{
    if s.len() > 0 {
        lemma_count_true_bounds(s.drop_last());
    }
}

/// A pointwise-smaller row has no more set entries; strictly fewer if some
/// entry is set only in the larger row.
pub proof fn lemma_count_true_le(a: Seq<bool>, b: Seq<bool>)
    requires
        a.len() == b.len(),
        row_le(a, b),
    ensures
        count_true(a) <= count_true(b),
        (exists|t: int| 0 <= t < a.len() && !a[t] && b[t]) ==> count_true(a) < count_true(b),
    decreases a.len(),
{
    if a.len() > 0 {
        assert(row_le(a.drop_last(), b.drop_last()));
        lemma_count_true_le(a.drop_last(), b.drop_last());
        if exists|t: int| 0 <= t < a.len() && !a[t] && b[t] {
            let t = choose|t: int| 0 <= t < a.len() && !a[t] && b[t];
            if t == a.len() - 1 {
                assert(!a.last() && b.last());
            } else {
                assert(!a.drop_last()[t] && b.drop_last()[t]);
            }
        }
    }
}

pub proof fn lemma_count_true_all_false(s: Seq<bool>)
    requires
        forall|t: int| 0 <= t < s.len() ==> !s[t],
    ensures
        count_true(s) == 0,
    decreases s.len(),
{
    if s.len() > 0 {
        lemma_count_true_all_false(s.drop_last());
    }
}

/// The grid as a sequence of rows, each viewed as a sequence.
pub open spec fn grid_view(m: Seq<Vec<bool>>) -> Seq<Seq<bool>> {
    Seq::new(m.len(), |i: int| m[i]@)
}

pub open spec fn grid_dims(g: Seq<Seq<bool>>, rows: int, cols: int) -> bool {
    &&& g.len() == rows
    &&& forall|i: int| 0 <= i < rows ==> (#[trigger] g[i]).len() == cols
}

/// Every set entry of `a` is set in `b` (grids of equal dimensions).
pub open spec fn grid_le(a: Seq<Seq<bool>>, b: Seq<Seq<bool>>) -> bool {
    forall|i: int, t: int|
        0 <= i < a.len() && 0 <= t < a[i].len() && #[trigger] a[i][t] ==> b[i][t]
}

/// How many entries of the whole grid are set.
pub open spec fn grid_count(g: Seq<Seq<bool>>) -> int
    decreases g.len(),
{
    if g.len() == 0 {
        0
    } else {
        grid_count(g.drop_last()) + count_true(g.last())
    }
}

pub proof fn lemma_grid_count_bounds(g: Seq<Seq<bool>>, rows: int, cols: int)
    requires
        grid_dims(g, rows, cols),
        0 <= cols,
    ensures
        0 <= grid_count(g) <= rows * cols,
    decreases g.len(),
{
    if g.len() == 0 {
        assert(rows * cols == 0) by (nonlinear_arith)
            requires rows == 0;
    } else {
        assert(grid_dims(g.drop_last(), rows - 1, cols));
        lemma_grid_count_bounds(g.drop_last(), rows - 1, cols);
        lemma_count_true_bounds(g.last());
        assert((rows - 1) * cols + cols == rows * cols) by (nonlinear_arith);
    }
}

pub proof fn lemma_grid_count_update(g: Seq<Seq<bool>>, i: int, r: Seq<bool>)
    requires
        0 <= i < g.len(),
    ensures
        grid_count(g.update(i, r)) == grid_count(g) - count_true(g[i]) + count_true(r),
    decreases g.len(),
{
    let g2 = g.update(i, r);
    if i == g.len() - 1 {
        assert(g2.drop_last() =~= g.drop_last());
        assert(g2.last() == r);
    } else {
        assert(g2.drop_last() =~= g.drop_last().update(i, r));
        assert(g2.last() == g.last());
        lemma_grid_count_update(g.drop_last(), i, r);
    }
}

pub proof fn lemma_grid_count_le(a: Seq<Seq<bool>>, b: Seq<Seq<bool>>, rows: int, cols: int)
    requires
        grid_dims(a, rows, cols),
        grid_dims(b, rows, cols),
        grid_le(a, b),
    ensures
        grid_count(a) <= grid_count(b),
    decreases a.len(),
{
    if a.len() > 0 {
        assert(grid_dims(a.drop_last(), rows - 1, cols));
        assert(grid_dims(b.drop_last(), rows - 1, cols));
        assert(grid_le(a.drop_last(), b.drop_last())) by {
            assert forall|i: int, t: int|
                0 <= i < a.drop_last().len() && 0 <= t < a.drop_last()[i].len()
                    && #[trigger] a.drop_last()[i][t] implies b.drop_last()[i][t] by {
                assert(a[i][t]);
            }
        }
        lemma_grid_count_le(a.drop_last(), b.drop_last(), rows - 1, cols);
        assert(row_le(a.last(), b.last())) by {
            assert forall|t: int| 0 <= t < a.last().len() && #[trigger] a.last()[t]
                implies b.last()[t] by {
                assert(a[a.len() - 1][t]);
            }
        }
        lemma_count_true_le(a.last(), b.last());
    }
}

/// A fresh row of `n` unset entries.
pub fn false_row(n: usize) -> (r: Vec<bool>)
    ensures
        r@.len() == n,
        forall|t: int| 0 <= t < n ==> !r@[t],
        count_true(r@) == 0,
{
    let mut r: Vec<bool> = Vec::new();
    let mut k: usize = 0;
    while k < n
        invariant
            k <= n,
            r@.len() == k,
            forall|t: int| 0 <= t < k ==> !r@[t],
        decreases n - k,
    {
        r.push(false);
        k = k + 1;
    }
    proof {
        lemma_count_true_all_false(r@);
    }
    r
}

/// The union of two rows, as a fresh row the length of `a`; entries of `b`
/// beyond nothing (when `b` is shorter) are treated as unset. The flag says
/// whether the union is strictly larger than `a`.
pub fn merged_row(a: &Vec<bool>, b: &Vec<bool>) -> (res: (Vec<bool>, bool))
    requires
        b@.len() <= a@.len(),
    ensures
        res.0@.len() == a@.len(),
        forall|t: int|
            0 <= t < a@.len() ==> res.0@[t] == (a@[t] || (t < b@.len() && b@[t])),
        res.1 == exists|t: int| 0 <= t < b@.len() && !a@[t] && b@[t],
        !res.1 ==> res.0@ == a@,
        count_true(a@) <= count_true(res.0@),
        res.1 ==> count_true(a@) < count_true(res.0@),
{
    let n = a.len();
    let mut out: Vec<bool> = Vec::new();
    let mut changed = false;
    let mut t: usize = 0;
    while t < n
        invariant
            t <= n,
            n == a@.len(),
            b@.len() <= a@.len(),
            out@.len() == t,
            forall|j: int| 0 <= j < t ==> out@[j] == (a@[j] || (j < b@.len() && b@[j])),
            changed == exists|j: int| 0 <= j < t && j < b@.len() && !a@[j] && b@[j],
        decreases n - t,
    {
        let bv = if t < b.len() {
            b[t]
        } else {
            false
        };
        let av = a[t];
        out.push(av || bv);
        if bv && !av {
            changed = true;
        }
        t = t + 1;
    }
    proof {
        assert(row_le(a@, out@));
        lemma_count_true_le(a@, out@);
        if !changed {
            assert(out@ =~= a@);
        }
    }
    (out, changed)
}

} // verus!
