//! In-place Gauss-Jordan elimination over GF(2) on a bank of bit rows.
//!
//! Each row holds `ncols` coefficients followed by one right-hand-side bit at
//! position `ncols`.
use crate::bitrow::{bits_of, row_clear, row_clone, row_get, row_insert, row_xor_with, xor_bits};
use fixedbitset::FixedBitSet;
use vstd::prelude::*;

verus! {

/// The bits of each row of a bank.
pub open spec fn rows_of(w: Seq<FixedBitSet>) -> Seq<Seq<bool>> {
    Seq::new(w.len(), |i: int| bits_of(w[i]))
}

/// Parity of the positions below `n` set both in `r` and in `x`.
pub open spec fn dot(r: Seq<bool>, x: Seq<bool>, n: int) -> bool
    decreases n,
{
    if n <= 0 {
        false
    } else {
        dot(r, x, n - 1) != (r[n - 1] && x[n - 1])
    }
}

/// The equation held by row `r` (coefficients below `c`, right-hand side at `c`) is met by `x`.
pub open spec fn row_holds(r: Seq<bool>, x: Seq<bool>, c: int) -> bool {
    dot(r, x, c) == r[c]
}

/// Every equation of `m` is met by `x`.
pub open spec fn system_holds(m: Seq<Seq<bool>>, x: Seq<bool>, c: int) -> bool {
    forall|i: int| 0 <= i < m.len() ==> #[trigger] row_holds(m[i], x, c)
}

/// Every row has `c` coefficients and one right-hand side.
pub open spec fn shaped(m: Seq<Seq<bool>>, c: int) -> bool {
    forall|i: int| 0 <= i < m.len() ==> (#[trigger] m[i]).len() == c + 1
}

/// Some assignment of the `c` unknowns meets every equation of `m`.
pub open spec fn solvable(m: Seq<Seq<bool>>, c: int) -> bool {
    exists|x: Seq<bool>| x.len() == c && #[trigger] system_holds(m, x, c)
}

/// Column `t` of `m` is the sum of the columns below `c` that `y` selects.
pub open spec fn col_sum(m: Seq<Seq<bool>>, y: Seq<bool>, c: int, t: int) -> bool {
    forall|i: int| 0 <= i < m.len() ==> #[trigger] dot(m[i], y, c) == m[i][t]
}

/// Column `j` of `m` is no sum of columns before it: a pivot column of the
/// reduced form.
pub open spec fn pivot_col(m: Seq<Seq<bool>>, c: int, j: int) -> bool {
    !exists|y: Seq<bool>|
        y.len() == c && (forall|k: int| j <= k < c ==> !#[trigger] y[k]) && #[trigger] col_sum(
            m,
            y,
            c,
            j,
        )
}

/// Adding one row to another keeps every relation between columns.
proof fn lemma_xor_row_cols(m: Seq<Seq<bool>>, k: int, p: int, c: int)
    requires
        shaped(m, c),
        c >= 0,
        0 <= k < m.len(),
        0 <= p < m.len(),
        k != p,
    ensures
        forall|y: Seq<bool>, t: int|
            0 <= t <= c ==> #[trigger] col_sum(m.update(k, xor_bits(m[k], m[p])), y, c, t)
                == col_sum(m, y, c, t),
{
    let m2 = m.update(k, xor_bits(m[k], m[p]));
    assert forall|y: Seq<bool>, t: int| 0 <= t <= c implies #[trigger] col_sum(m2, y, c, t)
        == col_sum(m, y, c, t) by {
        lemma_dot_xor(m[k], m[p], y, c);
        assert(m2[p] == m[p]);
        if col_sum(m, y, c, t) {
            assert(dot(m[k], y, c) == m[k][t]);
            assert(dot(m[p], y, c) == m[p][t]);
            assert forall|i: int| 0 <= i < m2.len() implies #[trigger] dot(m2[i], y, c) == m2[i][t] by {
                if i != k {
                    assert(dot(m[i], y, c) == m[i][t]);
                }
            }
        }
        if col_sum(m2, y, c, t) {
            assert(dot(m2[k], y, c) == m2[k][t]);
            assert(dot(m2[p], y, c) == m2[p][t]);
            assert forall|i: int| 0 <= i < m.len() implies #[trigger] dot(m[i], y, c) == m[i][t] by {
                if i != k {
                    assert(dot(m2[i], y, c) == m2[i][t]);
                }
            }
        }
    }
}

/// Exchanging two rows keeps every relation between columns.
proof fn lemma_swap_rows_cols(m: Seq<Seq<bool>>, a: int, b: int, c: int)
    requires
        0 <= a < m.len(),
        0 <= b < m.len(),
    ensures
        forall|y: Seq<bool>, t: int|
            #[trigger] col_sum(m.update(a, m[b]).update(b, m[a]), y, c, t) == col_sum(m, y, c, t),
{
    let m2 = m.update(a, m[b]).update(b, m[a]);
    assert forall|y: Seq<bool>, t: int| #[trigger] col_sum(m2, y, c, t) == col_sum(m, y, c, t) by {
        if col_sum(m, y, c, t) {
            assert forall|i: int| 0 <= i < m2.len() implies #[trigger] dot(m2[i], y, c) == m2[i][t] by {
                if i == a {
                    assert(dot(m[b], y, c) == m[b][t]);
                } else if i == b {
                    assert(dot(m[a], y, c) == m[a][t]);
                } else {
                    assert(dot(m[i], y, c) == m[i][t]);
                }
            }
        }
        if col_sum(m2, y, c, t) {
            assert forall|i: int| 0 <= i < m.len() implies #[trigger] dot(m[i], y, c) == m[i][t] by {
                if i == a {
                    assert(dot(m2[b], y, c) == m2[b][t]);
                } else if i == b {
                    assert(dot(m2[a], y, c) == m2[a][t]);
                } else {
                    assert(dot(m2[i], y, c) == m2[i][t]);
                }
            }
        }
    }
}

proof fn lemma_shaped_rows(w: Seq<FixedBitSet>, c: int)
    requires
        shaped(rows_of(w), c),
    ensures
        forall|k: int| 0 <= k < w.len() ==> (#[trigger] bits_of(w[k])).len() == c + 1,
{
    assert forall|k: int| 0 <= k < w.len() implies (#[trigger] bits_of(w[k])).len() == c + 1 by {
        assert(rows_of(w)[k] == bits_of(w[k]));
    }
}

proof fn lemma_dot_xor(a: Seq<bool>, b: Seq<bool>, x: Seq<bool>, n: int)
    requires
        0 <= n <= a.len(),
        a.len() == b.len(),
    ensures
        dot(xor_bits(a, b), x, n) == (dot(a, x, n) != dot(b, x, n)),
    decreases n,
{
    if n > 0 {
        lemma_dot_xor(a, b, x, n - 1);
    }
}

proof fn lemma_dot_zero(r: Seq<bool>, x: Seq<bool>, n: int)
    requires
        forall|j: int| 0 <= j < n ==> !r[j],
    ensures
        !dot(r, x, n),
    decreases n,
{
    if n > 0 {
        lemma_dot_zero(r, x, n - 1);
    }
}

proof fn lemma_dot_single(r: Seq<bool>, x: Seq<bool>, n: int, p: int)
    requires
        forall|j: int| 0 <= j < n && j != p ==> !(r[j] && x[j]),
    ensures
        dot(r, x, n) == (0 <= p < n && r[p] && x[p]),
    decreases n,
{
    if n > 0 {
        lemma_dot_single(r, x, n - 1, p);
    }
}

/// Adding one equation to another keeps the set of solutions.
proof fn lemma_xor_row(m: Seq<Seq<bool>>, k: int, p: int, c: int)
    requires
        shaped(m, c),
        c >= 0,
        0 <= k < m.len(),
        0 <= p < m.len(),
        k != p,
    ensures
        forall|y: Seq<bool>|
            #[trigger] system_holds(m.update(k, xor_bits(m[k], m[p])), y, c) == system_holds(
                m,
                y,
                c,
            ),
{
    let m2 = m.update(k, xor_bits(m[k], m[p]));
    assert forall|y: Seq<bool>| #[trigger]
        system_holds(m2, y, c) == system_holds(m, y, c) by {
        lemma_dot_xor(m[k], m[p], y, c);
        assert(m2[p] == m[p]);
        if system_holds(m, y, c) {
            assert(row_holds(m[k], y, c));
            assert(row_holds(m[p], y, c));
            assert forall|i: int| 0 <= i < m2.len() implies #[trigger] row_holds(m2[i], y, c) by {
                if i != k {
                    assert(row_holds(m[i], y, c));
                }
            }
        }
        if system_holds(m2, y, c) {
            assert(row_holds(m2[k], y, c));
            assert(row_holds(m2[p], y, c));
            assert forall|i: int| 0 <= i < m.len() implies #[trigger] row_holds(m[i], y, c) by {
                if i != k {
                    assert(row_holds(m2[i], y, c));
                }
            }
        }
    }
}

/// Exchanging two equations keeps the set of solutions.
proof fn lemma_swap_rows(m: Seq<Seq<bool>>, a: int, b: int, c: int)
    requires
        0 <= a < m.len(),
        0 <= b < m.len(),
    ensures
        forall|y: Seq<bool>|
            #[trigger] system_holds(m.update(a, m[b]).update(b, m[a]), y, c) == system_holds(
                m,
                y,
                c,
            ),
{
    let m2 = m.update(a, m[b]).update(b, m[a]);
    assert forall|y: Seq<bool>| #[trigger]
        system_holds(m2, y, c) == system_holds(m, y, c) by {
        if system_holds(m, y, c) {
            assert forall|i: int| 0 <= i < m2.len() implies #[trigger] row_holds(m2[i], y, c) by {
                if i == a {
                    assert(row_holds(m[b], y, c));
                } else if i == b {
                    assert(row_holds(m[a], y, c));
                } else {
                    assert(row_holds(m[i], y, c));
                }
            }
        }
        if system_holds(m2, y, c) {
            assert forall|i: int| 0 <= i < m.len() implies #[trigger] row_holds(m[i], y, c) by {
                if i == a {
                    assert(row_holds(m2[b], y, c));
                } else if i == b {
                    assert(row_holds(m2[a], y, c));
                } else {
                    assert(row_holds(m2[i], y, c));
                }
            }
        }
    }
}

/// The first row at or after `from` whose bit `j` is set, or the number of rows.
fn find_row_with(work: &Vec<FixedBitSet>, from: usize, j: usize) -> (p: usize)
    requires
        from <= work@.len(),
        forall|k: int| 0 <= k < work@.len() ==> j < bits_of(#[trigger] work@[k]).len(),
    ensures
        from <= p <= work@.len(),
        p < work@.len() ==> bits_of(work@[p as int])[j as int],
        forall|k: int| from <= k < p ==> !bits_of(#[trigger] work@[k])[j as int],
{
    let mut p = from;
    while p < work.len() && !row_get(&work[p], j)
        invariant
            from <= p <= work@.len(),
            forall|k: int| 0 <= k < work@.len() ==> j < bits_of(#[trigger] work@[k]).len(),
            forall|k: int| from <= k < p ==> !bits_of(#[trigger] work@[k])[j as int],
        decreases work@.len() - p,
    {
        p = p + 1;
    }
    p
}

fn swap_rows(work: &mut Vec<FixedBitSet>, a: usize, b: usize)
    requires
        a < old(work)@.len(),
        b < old(work)@.len(),
    ensures
        final(work)@.len() == old(work)@.len(),
        rows_of(final(work)@) == rows_of(old(work)@).update(
            a as int,
            rows_of(old(work)@)[b as int],
        ).update(b as int, rows_of(old(work)@)[a as int]),
{
    let ra = row_clone(&work[a]);
    let rb = row_clone(&work[b]);
    work.set(a, rb);
    work.set(b, ra);
    assert(rows_of(work@) =~= rows_of(old(work)@).update(
        a as int,
        rows_of(old(work)@)[b as int],
    ).update(b as int, rows_of(old(work)@)[a as int]));
}

/// Adds row `prow` into every other row whose bit `j` is set.
fn eliminate_column(work: &mut Vec<FixedBitSet>, prow: usize, j: usize, c: Ghost<int>)
    requires
        prow < old(work)@.len(),
        j < c@ + 1,
        c@ >= 0,
        shaped(rows_of(old(work)@), c@),
    ensures
        final(work)@.len() == old(work)@.len(),
        shaped(rows_of(final(work)@), c@),
        forall|k: int|
            0 <= k < old(work)@.len() ==> #[trigger] rows_of(final(work)@)[k] == if k != prow
                && rows_of(old(work)@)[k][j as int] {
                xor_bits(rows_of(old(work)@)[k], rows_of(old(work)@)[prow as int])
            } else {
                rows_of(old(work)@)[k]
            },
        forall|y: Seq<bool>| #[trigger]
            system_holds(rows_of(final(work)@), y, c@) == system_holds(
                rows_of(old(work)@),
                y,
                c@,
            ),
        forall|y: Seq<bool>, t: int|
            0 <= t <= c@ ==> #[trigger] col_sum(rows_of(final(work)@), y, c@, t) == col_sum(
                rows_of(old(work)@),
                y,
                c@,
                t,
            ),
{
    let ghost m0 = rows_of(work@);
    let piv = row_clone(&work[prow]);
    let mut k: usize = 0;
    while k < work.len()
        invariant
            work@.len() == m0.len(),
            prow < m0.len(),
            bits_of(piv) == m0[prow as int],
            shaped(m0, c@),
            c@ >= 0,
            j < c@ + 1,
            shaped(rows_of(work@), c@),
            forall|i: int|
                0 <= i < k ==> #[trigger] rows_of(work@)[i] == if i != prow && m0[i][j as int] {
                    xor_bits(m0[i], m0[prow as int])
                } else {
                    m0[i]
                },
            forall|i: int| k <= i < m0.len() ==> #[trigger] rows_of(work@)[i] == m0[i],
            forall|y: Seq<bool>| #[trigger]
                system_holds(rows_of(work@), y, c@) == system_holds(m0, y, c@),
            forall|y: Seq<bool>, t: int|
                0 <= t <= c@ ==> #[trigger] col_sum(rows_of(work@), y, c@, t) == col_sum(m0, y, c@, t),
        decreases m0.len() - k,
    {
        proof {
            lemma_shaped_rows(work@, c@);
            assert(m0[prow as int].len() == c@ + 1);
        }
        if k != prow && row_get(&work[k], j) {
            let ghost before = rows_of(work@);
            proof {
                lemma_xor_row(before, k as int, prow as int, c@);
                lemma_xor_row_cols(before, k as int, prow as int, c@);
            }
            row_xor_with(&mut work[k], &piv);
            assert(rows_of(work@) =~= before.update(
                k as int,
                xor_bits(before[k as int], before[prow as int]),
            ));
        }
        k = k + 1;
    }
}

proof fn lemma_dot_xor_right(r: Seq<bool>, x1: Seq<bool>, x2: Seq<bool>, n: int)
    requires
        0 <= n <= x1.len(),
        x1.len() == x2.len(),
    ensures
        dot(r, xor_bits(x1, x2), n) == (dot(r, x1, n) != dot(r, x2, n)),
    decreases n,
{
    if n > 0 {
        lemma_dot_xor_right(r, x1, x2, n - 1);
    }
}

proof fn lemma_last_set(d: Seq<bool>, n: int) -> (j: int)
    requires
        0 <= n <= d.len(),
        exists|k: int| 0 <= k < n && #[trigger] d[k],
    ensures
        0 <= j < n,
        d[j],
        forall|k: int| j < k < n ==> !#[trigger] d[k],
    decreases n,
{
    if d[n - 1] {
        n - 1
    } else {
        lemma_last_set(d, n - 1)
    }
}

/// A solution that sets only unknowns of pivot columns is the only one: the
/// contract of `solve_in_place` fixes its witness.
pub proof fn lemma_pivot_solution_unique(m: Seq<Seq<bool>>, c: int, x1: Seq<bool>, x2: Seq<bool>)
    requires
        shaped(m, c),
        c >= 0,
        x1.len() == c,
        x2.len() == c,
        system_holds(m, x1, c),
        system_holds(m, x2, c),
        forall|j: int| 0 <= j < c && #[trigger] x1[j] ==> pivot_col(m, c, j),
        forall|j: int| 0 <= j < c && #[trigger] x2[j] ==> pivot_col(m, c, j),
    ensures
        x1 == x2,
{
    let d = xor_bits(x1, x2);
    if exists|k: int| 0 <= k < c && #[trigger] d[k] {
        let j = lemma_last_set(d, c);
        let y = d.update(j, false);
        assert forall|i: int| 0 <= i < m.len() implies #[trigger] dot(m[i], y, c) == m[i][j] by {
            assert(row_holds(m[i], x1, c));
            assert(row_holds(m[i], x2, c));
            lemma_dot_xor_right(m[i], x1, x2, c);
            let e = Seq::new(c as nat, |k: int| k == j);
            assert(d =~= xor_bits(y, e));
            lemma_dot_xor_right(m[i], y, e, c);
            lemma_dot_single(m[i], e, c, j);
        }
        assert(col_sum(m, y, c, j));
        assert forall|k: int| j <= k < c implies !#[trigger] y[k] by {
        }
        assert(!pivot_col(m, c, j));
        assert(x1[j] || x2[j]);
    }
    assert forall|k: int| 0 <= k < c implies x1[k] == x2[k] by {
        assert(!d[k]);
    }
    assert(x1 =~= x2);
}

/// A GF(2) solver that borrows a bank of rows for the time of a solve.
pub struct GF2Solver {
    pub work: Vec<FixedBitSet>,
    pub ncols: usize,
}

impl GF2Solver {
    /// Takes over `work`, whose rows hold `ncols` coefficients and one right-hand side.
    pub fn attach(work: Vec<FixedBitSet>, ncols: usize) -> (r: GF2Solver)
        ensures
            r.work == work,
            r.ncols == ncols,
    {
        GF2Solver { work, ncols }
    }

    /// Hands the bank of rows back.
    pub fn detach(self) -> (r: Vec<FixedBitSet>)
        ensures
            r == self.work,
    {
        self.work
    }

    /// Reduces the rows in place and decides the system. On success `x` holds a
    /// solution: each pivot unknown takes its row's right-hand side, free unknowns 0.
    /// The contract states this as: `x` solves the system and sets only unknowns
    /// of pivot columns, which fixes it (`lemma_pivot_solution_unique`).
    pub fn solve_in_place(&mut self, x: &mut FixedBitSet) -> (r: bool)
        requires
            shaped(rows_of(old(self).work@), old(self).ncols as int),
            bits_of(*old(x)).len() == old(self).ncols,
        ensures
            final(self).ncols == old(self).ncols,
            final(self).work@.len() == old(self).work@.len(),
            shaped(rows_of(final(self).work@), old(self).ncols as int),
            bits_of(*final(x)).len() == old(self).ncols,
            r == solvable(rows_of(old(self).work@), old(self).ncols as int),
            r ==> system_holds(rows_of(old(self).work@), bits_of(*final(x)), old(self).ncols as int),
            r ==> forall|j: int|
                0 <= j < old(self).ncols && #[trigger] bits_of(*final(x))[j] ==> pivot_col(
                    rows_of(old(self).work@),
                    old(self).ncols as int,
                    j,
                ),
    {
        let ghost m0 = rows_of(self.work@);
        let c = self.ncols;
        let nrows = self.work.len();
        let mut pivots: Vec<usize> = Vec::new();
        let mut j: usize = 0;
        while j < c
            invariant
                self.ncols == c,
                self.work@.len() == nrows,
                shaped(rows_of(self.work@), c as int),
                pivots@.len() <= nrows,
                pivots@.len() <= j <= c,
                forall|a: int, b: int|
                    0 <= a < b < pivots@.len() ==> pivots@[a] < pivots@[b],
                forall|a: int| 0 <= a < pivots@.len() ==> pivots@[a] < j,
                forall|a: int|
                    0 <= a < pivots@.len() ==> rows_of(self.work@)[a][#[trigger] pivots@[a] as int],
                forall|a: int, k: int|
                    #![trigger rows_of(self.work@)[k][pivots@[a] as int]]
                    0 <= a < pivots@.len() && 0 <= k < nrows && k != a
                        ==> !rows_of(self.work@)[k][pivots@[a] as int],
                forall|k: int, jj: int|
                    pivots@.len() <= k < nrows && 0 <= jj < j ==> !#[trigger] rows_of(self.work@)[k][jj],
                forall|y: Seq<bool>| #[trigger]
                    system_holds(rows_of(self.work@), y, c as int) == system_holds(m0, y, c as int),
                forall|y: Seq<bool>, t: int|
                    0 <= t <= c ==> #[trigger] col_sum(rows_of(self.work@), y, c as int, t) == col_sum(
                        m0,
                        y,
                        c as int,
                        t,
                    ),
                forall|a: int, jj: int|
                    0 <= a < pivots@.len() && 0 <= jj < pivots@[a] ==> !#[trigger] rows_of(
                        self.work@,
                    )[a][jj],
            decreases c - j,
        {
            let rank = pivots.len();
            proof {
                lemma_shaped_rows(self.work@, c as int);
            }
            let p = find_row_with(&self.work, rank, j);
            if p < nrows {
                let ghost before = rows_of(self.work@);
                proof {
                    lemma_swap_rows(before, p as int, rank as int, c as int);
                    lemma_swap_rows_cols(before, p as int, rank as int, c as int);
                }
                swap_rows(&mut self.work, p, rank);
                let ghost swapped = rows_of(self.work@);
                eliminate_column(&mut self.work, rank, j, Ghost(c as int));
                let ghost after = rows_of(self.work@);
                pivots.push(j);
                assert forall|a: int| 0 <= a < pivots@.len() implies after[a][#[trigger] pivots@[a] as int] by {
                    if a < rank {
                        assert(!swapped[rank as int][pivots@[a] as int]);
                    }
                }
                assert forall|a: int, k: int|
                    #![trigger after[k][pivots@[a] as int]]
                    0 <= a < pivots@.len() && 0 <= k < nrows && k != a
                    implies !after[k][pivots@[a] as int] by {
                    if a < rank {
                        assert(!swapped[rank as int][pivots@[a] as int]);
                        assert(!swapped[k][pivots@[a] as int]);
                    }
                }
                assert forall|a: int, jj: int|
                    0 <= a < pivots@.len() && 0 <= jj < pivots@[a] implies !#[trigger] after[a][jj] by {
                    assert(!swapped[rank as int][jj]);
                    if a < rank {
                        assert(!swapped[a][jj]);
                    }
                }
                assert forall|k: int, jj: int|
                    pivots@.len() <= k < nrows && 0 <= jj < j + 1 implies !#[trigger] after[k][jj] by {
                    if jj < j {
                        assert(!swapped[rank as int][jj]);
                        assert(!swapped[k][jj]);
                    }
                }
            }
            j = j + 1;
        }
        let rank = pivots.len();
        let ghost m = rows_of(self.work@);
        proof {
            lemma_shaped_rows(self.work@, c as int);
        }
        let bad = find_row_with(&self.work, rank, c);
        if bad < nrows {
            assert forall|y: Seq<bool>| y.len() == c implies !#[trigger] system_holds(m0, y, c as int) by {
                lemma_dot_zero(m[bad as int], y, c as int);
                assert(!row_holds(m[bad as int], y, c as int));
                assert(!system_holds(m, y, c as int));
            }
            return false;
        }
        assert forall|b1: int| 0 <= b1 < rank implies #[trigger] pivot_col(m0, c as int, pivots@[b1] as int) by {
            let pj = pivots@[b1] as int;
            if exists|y: Seq<bool>|
                y.len() == c && (forall|k: int| pj <= k < c ==> !#[trigger] y[k]) && #[trigger] col_sum(
                    m0,
                    y,
                    c as int,
                    pj,
                ) {
                let y = choose|y: Seq<bool>|
                    y.len() == c && (forall|k: int| pj <= k < c ==> !#[trigger] y[k]) && #[trigger] col_sum(
                        m0,
                        y,
                        c as int,
                        pj,
                    );
                assert(col_sum(m, y, c as int, pj));
                assert(dot(m[b1], y, c as int) == m[b1][pj]);
                assert forall|jj: int| 0 <= jj < c && jj != -1 implies !(m[b1][jj] && y[jj]) by {
                    if jj < pj {
                        assert(!m[b1][jj]);
                    }
                }
                lemma_dot_single(m[b1], y, c as int, -1);
            }
        }
        row_clear(x);
        let mut a: usize = 0;
        while a < rank
            invariant
                rank == pivots@.len(),
                m == rows_of(self.work@),
                nrows == self.work@.len(),
                forall|k: int| 0 <= k < nrows ==> (#[trigger] bits_of(self.work@[k])).len() == c + 1,
                bits_of(*x).len() == c,
                rank <= nrows,
                nrows == m.len(),
                shaped(m, c as int),
                forall|a1: int, b1: int| 0 <= a1 < b1 < rank ==> pivots@[a1] < pivots@[b1],
                forall|a1: int| 0 <= a1 < rank ==> pivots@[a1] < c,
                forall|b1: int| 0 <= b1 < rank ==> #[trigger] pivot_col(m0, c as int, pivots@[b1] as int),
                forall|b1: int|
                    0 <= b1 < a ==> bits_of(*x)[#[trigger] pivots@[b1] as int] == m[b1][c as int],
                forall|jj: int|
                    0 <= jj < c && (forall|b1: int| 0 <= b1 < a ==> pivots@[b1] != jj)
                        ==> !#[trigger] bits_of(*x)[jj],
                a <= rank,
            decreases rank - a,
        {
            if row_get(&self.work[a], c) {
                row_insert(x, pivots[a]);
            }
            a = a + 1;
        }
        let ghost xs = bits_of(*x);
        assert forall|j2: int| 0 <= j2 < c && #[trigger] xs[j2] implies pivot_col(m0, c as int, j2) by {
            let b1 = choose|b1: int| 0 <= b1 < rank && pivots@[b1] == j2;
            assert(pivot_col(m0, c as int, pivots@[b1] as int));
        }
        assert forall|i: int| 0 <= i < m.len() implies #[trigger] row_holds(m[i], xs, c as int) by {
            if i < rank {
                assert forall|jj: int| 0 <= jj < c && jj != pivots@[i] as int
                    implies !(m[i][jj] && xs[jj]) by {
                    if xs[jj] {
                        let b1 = choose|b1: int| 0 <= b1 < rank && pivots@[b1] == jj;
                        assert(!m[i][pivots@[b1] as int]);
                    }
                }
                lemma_dot_single(m[i], xs, c as int, pivots@[i] as int);
            } else {
                lemma_dot_zero(m[i], xs, c as int);
            }
        }
        assert(system_holds(m, xs, c as int));
        true
    }
}

} // verus!
