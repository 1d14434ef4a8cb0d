//! The linear systems solved for one vertex: their construction in a bank of
//! bit rows, their solution, and what a solution says about the vertex.
use crate::bitrow::{bits_of, new_row, row_get, row_insert, row_toggle};
use crate::common::{adj, graph_simple, graph_wf, in_odd, in_range, mask_of, to_mask, Graph};
use crate::posmap::{indexes, pos_get, position_map, positions, PosMap};
use crate::gf2_linalg::{pivot_col, row_holds, rows_of, solvable, system_holds, GF2Solver};
use crate::parity::{
    lemma_dot_is_odd, lemma_dot_psum, lemma_odd_add, lemma_psum_ext, lemma_psum_unique,
    lemma_psum_xor, psum, selected,
};
use crate::plane::PPlane;
use fixedbitset::FixedBitSet;
use vstd::prelude::*;

verus! {

/// Which constraint on the measured vertex a linear system encodes.
#[derive(PartialEq, Eq, Clone, Copy, Debug, Structural)]
pub enum BranchKind {
    XY,
    YZ,
    ZX,
}

/// The branches tried for a vertex measured in plane `p`.
pub open spec fn eligible(p: PPlane, b: BranchKind) -> bool {
    match b {
        BranchKind::XY => p == PPlane::XY || p == PPlane::X || p == PPlane::Y,
        BranchKind::YZ => p == PPlane::YZ || p == PPlane::Y || p == PPlane::Z,
        BranchKind::ZX => p == PPlane::ZX || p == PPlane::Z || p == PPlane::X,
    }
}

/// Right-hand side of the upper row of `v` when correcting `u`.
pub open spec fn upper_rhs(g: Seq<Vec<usize>>, b: BranchKind, u: int, v: int) -> bool {
    match b {
        BranchKind::XY => v == u,
        BranchKind::YZ => adj(g, u, v),
        BranchKind::ZX => (v == u) != adj(g, u, v),
    }
}

/// Right-hand side of the lower row of `v` when correcting `u`.
pub open spec fn lower_rhs(g: Seq<Vec<usize>>, b: BranchKind, u: int, v: int) -> bool {
    match b {
        BranchKind::XY => false,
        _ => adj(g, u, v),
    }
}

/// Coefficients of the upper row of `v`: which candidates neighbour `v`.
pub open spec fn upper_co(g: Seq<Vec<usize>>, v: int, cols: Seq<usize>) -> Seq<bool> {
    Seq::new(cols.len() + 1, |c: int| c < cols.len() && adj(g, v, cols[c] as int))
}

/// Coefficients of the lower row of `v`: which candidates neighbour `v` or are `v`.
pub open spec fn lower_co(g: Seq<Vec<usize>>, v: int, cols: Seq<usize>) -> Seq<bool> {
    Seq::new(
        cols.len() + 1,
        |c: int| c < cols.len() && (adj(g, v, cols[c] as int) || cols[c] == v),
    )
}

/// The system solved for `u` on branch `b`: one upper row per vertex of
/// `rows_u`, then one lower row per vertex of `rows_l`, one unknown per vertex of
/// `cols`, and the right-hand side last.
pub open spec fn branch_system(
    g: Seq<Vec<usize>>,
    b: BranchKind,
    u: int,
    rows_u: Seq<usize>,
    rows_l: Seq<usize>,
    cols: Seq<usize>,
) -> Seq<Seq<bool>> {
    Seq::new(
        rows_u.len() + rows_l.len(),
        |r: int|
            if r < rows_u.len() {
                upper_co(g, rows_u[r] as int, cols).update(
                    cols.len() as int,
                    upper_rhs(g, b, u, rows_u[r] as int),
                )
            } else {
                lower_co(g, rows_l[r - rows_u.len()] as int, cols).update(
                    cols.len() as int,
                    lower_rhs(g, b, u, rows_l[r - rows_u.len()] as int),
                )
            },
    )
}

/// A bank of `nrows` clear rows of `width` bits.
fn zerofill(work: &mut Vec<FixedBitSet>, nrows: usize, width: usize)
    ensures
        final(work)@.len() == nrows,
        forall|r: int|
            0 <= r < nrows ==> bits_of(#[trigger] final(work)@[r]) == Seq::new(
                width as nat,
                |c: int| false,
            ),
{
    while work.len() > nrows
        decreases work@.len(),
    {
        work.pop();
    }
    while work.len() < nrows
        invariant
            work@.len() <= nrows,
        decreases nrows - work@.len(),
    {
        work.push(new_row(width));
    }
    let mut r: usize = 0;
    while r < nrows
        invariant
            work@.len() == nrows,
            r <= nrows,
            forall|k: int|
                0 <= k < r ==> bits_of(#[trigger] work@[k]) == Seq::new(width as nat, |c: int| false),
        decreases nrows - r,
    {
        work.set(r, new_row(width));
        r = r + 1;
    }
}

/// Sets, in the clear row `row`, the coefficient of each candidate that
/// neighbours `v`.
fn fill_neighbors(
    work: &mut Vec<FixedBitSet>,
    row: usize,
    g: &Graph,
    v: usize,
    cols: &Vec<usize>,
    colidx: &PosMap,
)
    requires
        graph_wf(g@),
        v < g@.len(),
        row < old(work)@.len(),
        indexes(positions(*colidx), cols@, g@.len()),
        bits_of(old(work)@[row as int]).len() == cols@.len() + 1,
    ensures
        final(work)@.len() == old(work)@.len(),
        forall|k: int| 0 <= k < old(work)@.len() && k != row ==> #[trigger] final(work)@[k] == old(work)@[k],
        bits_of(final(work)@[row as int]).len() == cols@.len() + 1,
        bits_of(final(work)@[row as int])[cols@.len() as int] == bits_of(old(work)@[row as int])[cols@.len() as int],
        forall|c: int|
            0 <= c < cols@.len() ==> #[trigger] bits_of(final(work)@[row as int])[c] == (bits_of(
                old(work)@[row as int],
            )[c] || adj(g@, v as int, cols@[c] as int)),
{
    let ghost w0 = work@;
    let ncols = cols.len();
    let nb = &g[v];
    let mut k: usize = 0;
    while k < nb.len()
        invariant
            graph_wf(g@),
            v < g@.len(),
            nb == g@[v as int],
            k <= nb@.len(),
            ncols == cols@.len(),
            row < w0.len(),
            work@.len() == w0.len(),
            indexes(positions(*colidx), cols@, g@.len()),
            forall|k2: int| 0 <= k2 < w0.len() && k2 != row ==> #[trigger] work@[k2] == w0[k2],
            bits_of(work@[row as int]).len() == ncols + 1,
            bits_of(work@[row as int])[ncols as int] == bits_of(w0[row as int])[ncols as int],
            forall|c: int|
                0 <= c < ncols ==> #[trigger] bits_of(work@[row as int])[c] == (bits_of(
                    w0[row as int],
                )[c] || exists|k2: int| 0 <= k2 < k && nb@[k2] == cols@[c]),
        decreases nb@.len() - k,
    {
        let w = nb[k];
        assert(w < g@.len());
        let ci = match pos_get(colidx, w) {
            Some(c) => c,
            None => ncols,
        };
        assert(ci < ncols ==> cols@[ci as int] == w);
        assert(ci == ncols ==> !cols@.contains(w));
        if ci < ncols {
            row_insert(&mut work[row], ci);
        }
        assert forall|c: int| 0 <= c < ncols implies #[trigger] bits_of(work@[row as int])[c] == (
        bits_of(w0[row as int])[c] || exists|k2: int| 0 <= k2 < k + 1 && nb@[k2] == cols@[c]) by {
            if nb@[k as int] == cols@[c] {
                if ci == ncols {
                    assert(cols@.contains(w));
                } else {
                    assert(ci == c) by {
                        if ci < c {
                            assert(cols@[ci as int] < cols@[c]);
                        } else if c < ci {
                            assert(cols@[c] < cols@[ci as int]);
                        }
                    }
                }
            } else if ci < ncols {
                assert(c != ci);
            }
        }
        k = k + 1;
    }
    assert forall|c: int| 0 <= c < ncols implies (exists|k2: int| 0 <= k2 < nb@.len() && nb@[k2] == cols@[c]) == adj(g@, v as int, cols@[c] as int) by {
    }
}

/// `old` with the coefficient of each candidate that neighbours `v` set; the
/// other bits, the right-hand side among them, as they were.
pub open spec fn or_upper(old: Seq<bool>, g: Seq<Vec<usize>>, v: int, cols: Seq<usize>) -> Seq<bool> {
    Seq::new(
        old.len(),
        |c: int| if c < cols.len() { old[c] || adj(g, v, cols[c] as int) } else { old[c] },
    )
}

/// `old` with the coefficient of each candidate that neighbours `v` or is `v`
/// set; the other bits as they were.
pub open spec fn or_lower(old: Seq<bool>, g: Seq<Vec<usize>>, v: int, cols: Seq<usize>) -> Seq<bool> {
    Seq::new(
        old.len(),
        |c: int|
            if c < cols.len() {
                old[c] || adj(g, v, cols[c] as int) || cols[c] == v
            } else {
                old[c]
            },
    )
}

/// Sets, in each upper row, the coefficient of every candidate that
/// neighbours the row's vertex; bits are only ever set.
fn init_work_upper_co(work: &mut Vec<FixedBitSet>, g: &Graph, rowset: &Vec<usize>, cols: &Vec<usize>, colidx: &PosMap)
    requires
        graph_wf(g@),
        in_range(rowset@, g@.len()),
        rowset@.len() <= old(work)@.len(),
        indexes(positions(*colidx), cols@, g@.len()),
        forall|r: int| 0 <= r < rowset@.len() ==> bits_of(#[trigger] old(work)@[r]).len() == cols@.len() + 1,
    ensures
        final(work)@.len() == old(work)@.len(),
        forall|r: int| rowset@.len() <= r < old(work)@.len() ==> #[trigger] final(work)@[r] == old(work)@[r],
        forall|r: int|
            0 <= r < rowset@.len() ==> bits_of(#[trigger] final(work)@[r]) == or_upper(
                bits_of(old(work)@[r]),
                g@,
                rowset@[r] as int,
                cols@,
            ),
{
    let ghost w0 = work@;
    let mut r: usize = 0;
    while r < rowset.len()
        invariant
            graph_wf(g@),
            in_range(rowset@, g@.len()),
            rowset@.len() <= w0.len(),
            r <= rowset@.len(),
            work@.len() == w0.len(),
            indexes(positions(*colidx), cols@, g@.len()),
            forall|k: int| r <= k < w0.len() ==> #[trigger] work@[k] == w0[k],
            forall|k: int| 0 <= k < rowset@.len() ==> bits_of(#[trigger] w0[k]).len() == cols@.len() + 1,
            forall|k: int|
                0 <= k < r ==> bits_of(#[trigger] work@[k]) == or_upper(
                    bits_of(w0[k]),
                    g@,
                    rowset@[k] as int,
                    cols@,
                ),
        decreases rowset@.len() - r,
    {
        let v = rowset[r];
        assert(bits_of(work@[r as int]) == bits_of(w0[r as int]));
        fill_neighbors(work, r, g, v, cols, colidx);
        assert(bits_of(work@[r as int]) =~= or_upper(bits_of(w0[r as int]), g@, v as int, cols@));
        r = r + 1;
    }
}

/// Sets, in each lower row (from row `off` on), the coefficient of every
/// candidate that neighbours the row's vertex or is that vertex; bits are only
/// ever set.
fn init_work_lower_co(work: &mut Vec<FixedBitSet>, off: usize, g: &Graph, rowset: &Vec<usize>, cols: &Vec<usize>, colidx: &PosMap)
    requires
        graph_wf(g@),
        in_range(rowset@, g@.len()),
        off + rowset@.len() <= old(work)@.len(),
        indexes(positions(*colidx), cols@, g@.len()),
        forall|r: int| off <= r < off + rowset@.len() ==> bits_of(#[trigger] old(work)@[r]).len() == cols@.len() + 1,
    ensures
        final(work)@.len() == old(work)@.len(),
        forall|r: int| 0 <= r < old(work)@.len() && !(off <= r < off + rowset@.len()) ==> #[trigger] final(work)@[r] == old(work)@[r],
        forall|r: int|
            0 <= r < rowset@.len() ==> bits_of(#[trigger] final(work)@[off + r]) == or_lower(
                bits_of(old(work)@[off + r]),
                g@,
                rowset@[r] as int,
                cols@,
            ),
{
    let ghost w0 = work@;
    let ncols = cols.len();
    let mut r: usize = 0;
    while r < rowset.len()
        invariant
            graph_wf(g@),
            in_range(rowset@, g@.len()),
            off + rowset@.len() <= w0.len(),
            r <= rowset@.len(),
            ncols == cols@.len(),
            work@.len() == w0.len(),
            indexes(positions(*colidx), cols@, g@.len()),
            forall|k: int| 0 <= k < w0.len() && !(off <= k < off + r) ==> #[trigger] work@[k] == w0[k],
            forall|k: int| off <= k < off + rowset@.len() ==> bits_of(#[trigger] w0[k]).len() == cols@.len() + 1,
            forall|k: int|
                0 <= k < r ==> bits_of(#[trigger] work@[off + k]) == or_lower(
                    bits_of(w0[off + k]),
                    g@,
                    rowset@[k] as int,
                    cols@,
                ),
        decreases rowset@.len() - r,
    {
        let v = rowset[r];
        let total = work.len();
        assert(off + r < total);
        let row = off + r;
        let ghost before = bits_of(w0[row as int]);
        assert(bits_of(work@[row as int]) == before);
        let ci = match pos_get(colidx, v) {
            Some(c) => c,
            None => ncols,
        };
        assert(ci < ncols ==> cols@[ci as int] == v);
        assert(ci == ncols ==> !cols@.contains(v));
        if ci < ncols {
            row_insert(&mut work[row], ci);
        }
        let ghost mid = bits_of(work@[row as int]);
        assert(mid.len() == ncols + 1);
        assert(mid[ncols as int] == before[ncols as int]);
        assert forall|c: int| 0 <= c < ncols implies #[trigger] mid[c] == (before[c] || cols@[c] == v) by {
            if cols@[c] == v {
                if ci == ncols {
                    assert(cols@.contains(v));
                } else {
                    assert(ci == c) by {
                        if ci < c {
                            assert(cols@[ci as int] < cols@[c]);
                        } else if c < ci {
                            assert(cols@[c] < cols@[ci as int]);
                        }
                    }
                }
            } else if ci < ncols {
                assert(c != ci);
            }
        }
        fill_neighbors(work, row, g, v, cols, colidx);
        assert(bits_of(work@[row as int]) =~= or_lower(before, g@, v as int, cols@));
        r = r + 1;
    }
}

/// Whether the right-hand side of the row of `v` is set for `u`: the upper row
/// of `u` itself, on the XY and ZX branches.
pub open spec fn rhs_set(upper: bool, b: BranchKind, u: int, v: int) -> bool {
    upper && b != BranchKind::YZ && v == u
}

/// Whether the right-hand side of the row of `v` is then flipped for `u`: the
/// rows of the neighbours of `u`, on the YZ and ZX branches.
pub open spec fn rhs_toggle(g: Seq<Vec<usize>>, b: BranchKind, u: int, v: int) -> bool {
    b != BranchKind::XY && adj(g, u, v)
}

/// Builds the right-hand side of rows `off..off + rowset.len()` (upper rows
/// when `upper`, else lower ones) for `u` on branch `b`: sets the bit of the
/// row of `u`, then flips the bits of the rows of its neighbours, and leaves
/// every other bit as it was. `gu` is the neighbour mask of `u`.
fn init_work_rhs(
    work: &mut Vec<FixedBitSet>,
    off: usize,
    upper: bool,
    b: BranchKind,
    u: usize,
    g: &Graph,
    gu: &Vec<bool>,
    rowset: &Vec<usize>,
    ncols: usize,
)
    requires
        u < g@.len(),
        gu@ == mask_of(g@[u as int]@, g@.len()),
        in_range(rowset@, g@.len()),
        off + rowset@.len() <= old(work)@.len(),
        forall|r: int|
            off <= r < off + rowset@.len() ==> (#[trigger] bits_of(old(work)@[r])).len() == ncols
                + 1,
    ensures
        final(work)@.len() == old(work)@.len(),
        forall|r: int|
            0 <= r < old(work)@.len() && !(off <= r < off + rowset@.len())
                ==> #[trigger] final(work)@[r] == old(work)@[r],
        forall|r: int|
            0 <= r < rowset@.len() ==> bits_of(#[trigger] final(work)@[off + r])
                == bits_of(old(work)@[off + r]).update(
                ncols as int,
                (bits_of(old(work)@[off + r])[ncols as int] || rhs_set(upper, b, u as int, rowset@[r] as int))
                    != rhs_toggle(g@, b, u as int, rowset@[r] as int),
            ),
{
    let ghost w0 = work@;
    let mut r: usize = 0;
    while r < rowset.len()
        invariant
            u < g@.len(),
            gu@ == mask_of(g@[u as int]@, g@.len()),
            in_range(rowset@, g@.len()),
            off + rowset@.len() <= w0.len(),
            r <= rowset@.len(),
            work@.len() == w0.len(),
            forall|k: int|
                off <= k < off + rowset@.len() ==> (#[trigger] bits_of(w0[k])).len() == ncols + 1,
            forall|k: int| 0 <= k < w0.len() && !(off <= k < off + r) ==> #[trigger] work@[k] == w0[k],
            forall|k: int|
                0 <= k < r ==> bits_of(#[trigger] work@[off + k]) == bits_of(w0[off + k]).update(
                    ncols as int,
                    (bits_of(w0[off + k])[ncols as int] || rhs_set(upper, b, u as int, rowset@[k] as int))
                        != rhs_toggle(g@, b, u as int, rowset@[k] as int),
                ),
        decreases rowset@.len() - r,
    {
        let v = rowset[r];
        let total = work.len();
        assert(off + r < total);
        let row = off + r;
        assert(gu@[v as int] == adj(g@, u as int, v as int));
        let ghost before = bits_of(work@[row as int]);
        assert(before == bits_of(w0[row as int]));
        if upper && b != BranchKind::YZ && v == u {
            row_insert(&mut work[row], ncols);
        }
        if b != BranchKind::XY && gu[v] {
            row_toggle(&mut work[row], ncols);
        }
        assert(bits_of(work@[row as int]) =~= before.update(
            ncols as int,
            (before[ncols as int] || rhs_set(upper, b, u as int, v as int)) != rhs_toggle(g@, b, u as int, v as int),
        ));
        r = r + 1;
    }
}

/// Fills the clear bank `work` with the system of branch `b` for `u`.
fn init_work(
    b: BranchKind,
    work: &mut Vec<FixedBitSet>,
    u: usize,
    g: &Graph,
    gu: &Vec<bool>,
    rows_u: &Vec<usize>,
    rows_l: &Vec<usize>,
    cols: &Vec<usize>,
    colidx: &PosMap,
)
    requires
        graph_wf(g@),
        u < g@.len(),
        gu@ == mask_of(g@[u as int]@, g@.len()),
        in_range(rows_u@, g@.len()),
        in_range(rows_l@, g@.len()),
        indexes(positions(*colidx), cols@, g@.len()),
        old(work)@.len() == rows_u@.len() + rows_l@.len(),
        forall|r: int|
            0 <= r < old(work)@.len() ==> bits_of(#[trigger] old(work)@[r]) == Seq::new(
                cols@.len() + 1,
                |c: int| false,
            ),
    ensures
        rows_of(final(work)@) == branch_system(
            g@,
            b,
            u as int,
            rows_u@,
            rows_l@,
            cols@,
        ),
{
    let nu = rows_u.len();
    let ncols = cols.len();
    let ghost w0 = work@;
    init_work_upper_co(work, g, rows_u, cols, colidx);
    let ghost w1 = work@;
    init_work_lower_co(work, nu, g, rows_l, cols, colidx);
    let ghost w2 = work@;
    assert forall|r: int| 0 <= r < nu implies #[trigger] bits_of(w2[r]) == upper_co(g@, rows_u@[r] as int, cols@) by {
        assert(w2[r] == w1[r]);
        assert(bits_of(w1[r]) == or_upper(bits_of(w0[r]), g@, rows_u@[r] as int, cols@));
        assert(bits_of(w2[r]) =~= upper_co(g@, rows_u@[r] as int, cols@));
    }
    assert forall|r: int| 0 <= r < rows_l@.len() implies #[trigger] bits_of(w2[nu + r]) == lower_co(g@, rows_l@[r] as int, cols@) by {
        assert(w1[nu + r] == w0[nu + r]);
        assert(bits_of(w2[nu + r]) == or_lower(bits_of(w1[nu + r]), g@, rows_l@[r] as int, cols@));
        assert(bits_of(w2[nu + r]) =~= lower_co(g@, rows_l@[r] as int, cols@));
    }
    assert forall|r: int| 0 <= r < nu implies (#[trigger] bits_of(w2[r])).len() == ncols + 1 by {
    }
    assert forall|r: int| nu <= r < nu + rows_l@.len() implies (#[trigger] bits_of(w2[r])).len()
        == ncols + 1 by {
        assert(bits_of(w2[nu + (r - nu)]) == lower_co(g@, rows_l@[r - nu] as int, cols@));
    }
    init_work_rhs(work, 0, true, b, u, g, gu, rows_u, ncols);
    let ghost w3 = work@;
    assert forall|r: int| nu <= r < nu + rows_l@.len() implies (#[trigger] bits_of(w3[r])).len()
        == ncols + 1 by {
        assert(w3[r] == w2[r]);
    }
    init_work_rhs(work, nu, false, b, u, g, gu, rows_l, ncols);
    let ghost sys = branch_system(g@, b, u as int, rows_u@, rows_l@, cols@);
    assert forall|r: int| 0 <= r < work@.len() implies #[trigger] rows_of(work@)[r] == sys[r] by {
        if r < nu {
            assert(work@[r] == w3[r]);
            assert(bits_of(w3[0 + r]) == bits_of(w2[0 + r]).update(
                ncols as int,
                upper_rhs(g@, b, u as int, rows_u@[r] as int),
            ));
        } else {
            assert(bits_of(work@[nu + (r - nu)]) == bits_of(w3[nu + (r - nu)]).update(
                ncols as int,
                lower_rhs(g@, b, u as int, rows_l@[r - nu] as int),
            ));
            assert(w3[r] == w2[r]);
            assert(bits_of(w2[nu + (r - nu)]) == lower_co(g@, rows_l@[r - nu] as int, cols@));
        }
    }
    assert(rows_of(work@) =~= sys);
}

/// The vertices that a solution `x` decodes to: the candidates it selects, and
/// `u` itself on a branch other than XY.
pub open spec fn decoded_mask(
    b: BranchKind,
    u: int,
    x: Seq<bool>,
    cols: Seq<usize>,
    n: nat,
) -> Seq<bool> {
    Seq::new(
        n,
        |w: int|
            (exists|c: int| 0 <= c < cols.len() && x[c] && cols[c] == w as usize) || (b
                != BranchKind::XY && w == u),
    )
}

/// The correction set that the solution `x` stands for.
fn decode_solution(b: BranchKind, u: usize, x: &FixedBitSet, tab: &Vec<usize>, n: usize) -> (r: Vec<usize>)
    requires
        u < n,
        in_range(tab@, n as nat),
        bits_of(*x).len() == tab@.len(),
    ensures
        in_range(r@, n as nat),
        mask_of(r@, n as nat) == decoded_mask(b, u as int, bits_of(*x), tab@, n as nat),
{
    let ghost xs = bits_of(*x);
    let mut r: Vec<usize> = Vec::new();
    let mut c: usize = 0;
    while c < tab.len()
        invariant
            u < n,
            in_range(tab@, n as nat),
            xs == bits_of(*x),
            xs.len() == tab@.len(),
            c <= tab@.len(),
            in_range(r@, n as nat),
            forall|w: usize|
                #[trigger] r@.contains(w) == exists|c2: int| 0 <= c2 < c && xs[c2] && tab@[c2] == w,
        decreases tab@.len() - c,
    {
        if row_get(x, c) {
            let ghost before = r@;
            r.push(tab[c]);
            assert forall|w: usize| #[trigger] r@.contains(w) == exists|c2: int|
                0 <= c2 < c + 1 && xs[c2] && tab@[c2] == w by {
                if before.contains(w) {
                    let k = choose|k: int| 0 <= k < before.len() && before[k] == w;
                    assert(r@[k] == w);
                }
                if r@.contains(w) && w != tab@[c as int] {
                    let k = choose|k: int| 0 <= k < r@.len() && r@[k] == w;
                    assert(before[k] == w);
                }
                if w == tab@[c as int] {
                    assert(r@[r@.len() - 1] == w);
                }
            }
        }
        c = c + 1;
    }
    if b != BranchKind::XY {
        let ghost before = r@;
        r.push(u);
        assert forall|w: usize| #[trigger] r@.contains(w) == (before.contains(w) || w == u) by {
            if before.contains(w) {
                let k = choose|k: int| 0 <= k < before.len() && before[k] == w;
                assert(r@[k] == w);
            }
            if r@.contains(w) && w != u {
                let k = choose|k: int| 0 <= k < r@.len() && r@[k] == w;
                assert(before[k] == w);
            }
            if w == u {
                assert(r@[r@.len() - 1] == w);
            }
        }
    }
    assert(mask_of(r@, n as nat) =~= decoded_mask(b, u as int, xs, tab@, n as nat));
    r
}

/// Builds and solves the system of branch `b` for `u`, and decodes a solution.
fn solve_branch(
    b: BranchKind,
    work: Vec<FixedBitSet>,
    u: usize,
    g: &Graph,
    gu: &Vec<bool>,
    rows_u: &Vec<usize>,
    rows_l: &Vec<usize>,
    cols: &Vec<usize>,
    colidx: &PosMap,
) -> (r: (Vec<FixedBitSet>, Option<Vec<usize>>))
    requires
        graph_wf(g@),
        u < g@.len(),
        gu@ == mask_of(g@[u as int]@, g@.len()),
        in_range(rows_u@, g@.len()),
        in_range(rows_l@, g@.len()),
        indexes(positions(*colidx), cols@, g@.len()),
        rows_u@.len() + rows_l@.len() <= usize::MAX,
        cols@.len() < usize::MAX,
    ensures
        r.1.is_some() == solvable(
            branch_system(g@, b, u as int, rows_u@, rows_l@, cols@),
            cols@.len() as int,
        ),
        r.1 matches Some(fu) ==> in_range(fu@, g@.len()) && exists|x: Seq<bool>|
            x.len() == cols@.len() && #[trigger] system_holds(
                branch_system(g@, b, u as int, rows_u@, rows_l@, cols@),
                x,
                cols@.len() as int,
            ) && mask_of(fu@, g@.len()) == decoded_mask(b, u as int, x, cols@, g@.len()) && (forall|j: int|
                0 <= j < cols@.len() && #[trigger] x[j] ==> pivot_col(
                    branch_system(g@, b, u as int, rows_u@, rows_l@, cols@),
                    cols@.len() as int,
                    j,
                )),
{
    let mut work = work;
    let ncols = cols.len();
    let n = g.len();
    zerofill(&mut work, rows_u.len() + rows_l.len(), ncols + 1);
    init_work(b, &mut work, u, g, gu, rows_u, rows_l, cols, colidx);
    let ghost sys = rows_of(work@);
    assert forall|i: int| 0 <= i < sys.len() implies (#[trigger] sys[i]).len() == ncols + 1 by {
    }
    let mut x = new_row(ncols);
    let mut solver = GF2Solver::attach(work, ncols);
    let ok = solver.solve_in_place(&mut x);
    let work = solver.detach();
    if ok {
        let fu = decode_solution(b, u, &x, cols, n);
        (work, Some(fu))
    } else {
        (work, None)
    }
}

/// Order in which the branches are tried.
pub open spec fn branch_rank(b: BranchKind) -> int {
    match b {
        BranchKind::XY => 0,
        BranchKind::YZ => 1,
        BranchKind::ZX => 2,
    }
}

/// Tries the branches that plane `p` allows, in the order XY, YZ, ZX, and
/// decodes the first solution found.
pub(crate) fn solve_vertex(
    p: PPlane,
    work: Vec<FixedBitSet>,
    u: usize,
    g: &Graph,
    rows_u: &Vec<usize>,
    rows_l: &Vec<usize>,
    cols: &Vec<usize>,
) -> (r: (Vec<FixedBitSet>, Option<Vec<usize>>))
    requires
        graph_wf(g@),
        u < g@.len(),
        in_range(rows_u@, g@.len()),
        in_range(rows_l@, g@.len()),
        in_range(cols@, g@.len()),
        forall|a: int, b: int| 0 <= a < b < cols@.len() ==> cols@[a] < cols@[b],
        rows_u@.len() + rows_l@.len() <= usize::MAX,
        cols@.len() < usize::MAX,
    ensures
        r.1.is_some() == exists|b: BranchKind|
            eligible(p, b) && #[trigger] solvable(
                branch_system(g@, b, u as int, rows_u@, rows_l@, cols@),
                cols@.len() as int,
            ),
        r.1 matches Some(fu) ==> in_range(fu@, g@.len()) && exists|b: BranchKind, x: Seq<bool>|
            eligible(p, b) && x.len() == cols@.len() && #[trigger] system_holds(
                branch_system(g@, b, u as int, rows_u@, rows_l@, cols@),
                x,
                cols@.len() as int,
            ) && mask_of(fu@, g@.len()) == decoded_mask(b, u as int, x, cols@, g@.len()) && (forall|j: int|
                0 <= j < cols@.len() && #[trigger] x[j] ==> pivot_col(
                    branch_system(g@, b, u as int, rows_u@, rows_l@, cols@),
                    cols@.len() as int,
                    j,
                )) && (
            forall|b2: BranchKind|
                eligible(p, b2) && branch_rank(b2) < branch_rank(b) ==> !#[trigger] solvable(
                    branch_system(g@, b2, u as int, rows_u@, rows_l@, cols@),
                    cols@.len() as int,
                )),
{
    let n = g.len();
    let colidx = position_map(cols, n);
    let gu = to_mask(&g[u], n);
    let mut work = work;
    if p == PPlane::XY || p == PPlane::X || p == PPlane::Y {
        let (w, res) = solve_branch(BranchKind::XY, work, u, g, &gu, rows_u, rows_l, cols, &colidx);
        work = w;
        if res.is_some() {
            return (work, res);
        }
    }
    if p == PPlane::YZ || p == PPlane::Y || p == PPlane::Z {
        let (w, res) = solve_branch(BranchKind::YZ, work, u, g, &gu, rows_u, rows_l, cols, &colidx);
        work = w;
        if res.is_some() {
            return (work, res);
        }
    }
    if p == PPlane::ZX || p == PPlane::Z || p == PPlane::X {
        let (w, res) = solve_branch(BranchKind::ZX, work, u, g, &gu, rows_u, rows_l, cols, &colidx);
        work = w;
        if res.is_some() {
            return (work, res);
        }
    }
    (work, None)
}

/// A solution of the system of branch `b` for `u` makes every upper-row vertex
/// other than `u` even in the odd neighbourhood of the decoded set, and every
/// lower-row vertex other than `u` in both or in neither of the set and its odd
/// neighbourhood; `u` lands where the branch puts it.
pub proof fn lemma_branch_sound(
    g: Seq<Vec<usize>>,
    b: BranchKind,
    u: usize,
    rows_u: Seq<usize>,
    rows_l: Seq<usize>,
    cols: Seq<usize>,
    x: Seq<bool>,
)
    requires
        graph_wf(g),
        graph_simple(g),
        u < g.len(),
        in_range(rows_u, g.len()),
        in_range(rows_l, g.len()),
        in_range(cols, g.len()),
        forall|a: int, c: int| 0 <= a < c < cols.len() ==> cols[a] < cols[c],
        !cols.contains(u),
        x.len() == cols.len(),
        system_holds(branch_system(g, b, u as int, rows_u, rows_l, cols), x, cols.len() as int),
    ensures
        ({
            let s = decoded_mask(b, u as int, x, cols, g.len());
            &&& forall|r: int|
                0 <= r < rows_u.len() ==> in_odd(g, s, #[trigger] rows_u[r] as int) == (rows_u[r]
                    == u && b != BranchKind::YZ)
            &&& forall|r: int|
                0 <= r < rows_l.len() && rows_l[r] != u ==> in_odd(
                    g,
                    s,
                    #[trigger] rows_l[r] as int,
                ) == s[rows_l[r] as int]
            &&& s[u as int] == (b != BranchKind::XY)
            &&& forall|w: int| 0 <= w < g.len() && #[trigger] s[w] && w != u ==> cols.contains(w as usize)
        }),
{
    let n = g.len();
    let nc = cols.len() as int;
    let nu = rows_u.len() as int;
    let sys = branch_system(g, b, u as int, rows_u, rows_l, cols);
    let sel = selected(cols, x, n);
    let s = decoded_mask(b, u as int, x, cols, n);
    assert(!sel[u as int]) by {
        if sel[u as int] {
            let c = choose|c: int| 0 <= c < nc && x[c] && cols[c] == u;
            assert(cols[c] == u);
        }
    }
    let s_alt = if b == BranchKind::XY { sel } else { sel.update(u as int, true) };
    assert(s =~= s_alt);
    assert forall|v: int| 0 <= v < n implies #[trigger] in_odd(g, s, v) == (in_odd(g, sel, v) != (b
        != BranchKind::XY && adj(g, u as int, v))) by {
        if b != BranchKind::XY {
            lemma_odd_add(g, sel, u, v);
            assert(adj(g, v, u as int) == adj(g, u as int, v));
        }
    }
    assert forall|r: int| 0 <= r < rows_u.len() implies in_odd(g, s, #[trigger] rows_u[r] as int)
        == (rows_u[r] == u && b != BranchKind::YZ) by {
        let v = rows_u[r] as int;
        let row = sys[r];
        assert(row_holds(row, x, nc));
        lemma_dot_psum(row, x, nc);
        lemma_psum_ext(|c: int| row[c] && x[c], |c: int| adj(g, v, cols[c] as int) && x[c], nc);
        lemma_dot_is_odd(g, v, cols, x);
    }
    assert forall|r: int| 0 <= r < rows_l.len() && rows_l[r] != u implies in_odd(
        g,
        s,
        #[trigger] rows_l[r] as int,
    ) == s[rows_l[r] as int] by {
        let v = rows_l[r] as int;
        let row = sys[nu + r];
        assert(row_holds(row, x, nc));
        lemma_dot_psum(row, x, nc);
        let fa = |c: int| adj(g, v, cols[c] as int) && x[c];
        let fe = |c: int| cols[c] as int == v && x[c];
        assert forall|c: int| 0 <= c < nc implies (#[trigger] row[c] && x[c]) == (fa(c) != fe(
            c,
        )) by {
            if cols[c] as int == v {
                assert(!adj(g, v, v));
            }
        }
        lemma_psum_ext(|c: int| row[c] && x[c], |c: int| fa(c) != fe(c), nc);
        lemma_psum_xor(fa, fe, nc);
        lemma_dot_is_odd(g, v, cols, x);
        assert forall|i: int, j: int|
            0 <= i < nc && 0 <= j < nc && #[trigger] fe(i) && #[trigger] fe(j) implies i == j by {
            if i < j {
                assert(cols[i] < cols[j]);
            } else if j < i {
                assert(cols[j] < cols[i]);
            }
        }
        lemma_psum_unique(fe, nc);
        if sel[v] {
            let c = choose|c: int| 0 <= c < nc && x[c] && cols[c] == v as usize;
            assert(fe(c));
        }
        if psum(fe, nc) {
            let c = choose|c: int| 0 <= c < nc && #[trigger] fe(c);
            assert(x[c] && cols[c] == v as usize);
        }
    }
    assert forall|w: int| 0 <= w < n && #[trigger] s[w] && w != u implies cols.contains(w as usize) by {
        let c = choose|c: int| 0 <= c < nc && x[c] && cols[c] == w as usize;
        assert(cols[c] == w as usize);
    }
}

/// The equations of a branch system, read through the set `sel` of vertices
/// that a solution selects.
pub open spec fn sel_eqs(
    g: Seq<Vec<usize>>,
    b: BranchKind,
    u: int,
    rows_u: Seq<usize>,
    rows_l: Seq<usize>,
    sel: Seq<bool>,
) -> bool {
    &&& forall|r: int|
        0 <= r < rows_u.len() ==> in_odd(g, sel, #[trigger] rows_u[r] as int) == upper_rhs(
            g,
            b,
            u,
            rows_u[r] as int,
        )
    &&& forall|r: int|
        0 <= r < rows_l.len() ==> (in_odd(g, sel, #[trigger] rows_l[r] as int) != sel[rows_l[r] as int])
            == lower_rhs(g, b, u, rows_l[r] as int)
}

/// A candidate assignment solves a branch system exactly when the set of
/// vertices it selects meets `sel_eqs`.
pub proof fn lemma_system_by_selection(
    g: Seq<Vec<usize>>,
    b: BranchKind,
    u: int,
    rows_u: Seq<usize>,
    rows_l: Seq<usize>,
    cols: Seq<usize>,
    x: Seq<bool>,
)
    requires
        graph_wf(g),
        graph_simple(g),
        in_range(rows_u, g.len()),
        in_range(rows_l, g.len()),
        in_range(cols, g.len()),
        forall|a: int, c: int| 0 <= a < c < cols.len() ==> cols[a] < cols[c],
        x.len() == cols.len(),
    ensures
        system_holds(branch_system(g, b, u, rows_u, rows_l, cols), x, cols.len() as int) == sel_eqs(
            g,
            b,
            u,
            rows_u,
            rows_l,
            selected(cols, x, g.len()),
        ),
{
    let n = g.len();
    let nc = cols.len() as int;
    let nu = rows_u.len() as int;
    let sys = branch_system(g, b, u, rows_u, rows_l, cols);
    let sel = selected(cols, x, n);
    assert forall|r: int| 0 <= r < rows_u.len() implies #[trigger] row_holds(sys[r], x, nc) == (in_odd(
        g,
        sel,
        rows_u[r] as int,
    ) == upper_rhs(g, b, u, rows_u[r] as int)) by {
        let v = rows_u[r] as int;
        let row = sys[r];
        lemma_dot_psum(row, x, nc);
        lemma_psum_ext(|c: int| row[c] && x[c], |c: int| adj(g, v, cols[c] as int) && x[c], nc);
        lemma_dot_is_odd(g, v, cols, x);
    }
    assert forall|r: int| 0 <= r < rows_l.len() implies #[trigger] row_holds(sys[nu + r], x, nc) == ((
    in_odd(g, sel, rows_l[r] as int) != sel[rows_l[r] as int]) == lower_rhs(g, b, u, rows_l[r] as int)) by {
        let v = rows_l[r] as int;
        let row = sys[nu + r];
        lemma_dot_psum(row, x, nc);
        let fa = |c: int| adj(g, v, cols[c] as int) && x[c];
        let fe = |c: int| cols[c] as int == v && x[c];
        assert forall|c: int| 0 <= c < nc implies (#[trigger] row[c] && x[c]) == (fa(c) != fe(
            c,
        )) by {
            if cols[c] as int == v {
                assert(!adj(g, v, v));
            }
        }
        lemma_psum_ext(|c: int| row[c] && x[c], |c: int| fa(c) != fe(c), nc);
        lemma_psum_xor(fa, fe, nc);
        lemma_dot_is_odd(g, v, cols, x);
        assert forall|i: int, j: int|
            0 <= i < nc && 0 <= j < nc && #[trigger] fe(i) && #[trigger] fe(j) implies i == j by {
            if i < j {
                assert(cols[i] < cols[j]);
            } else if j < i {
                assert(cols[j] < cols[i]);
            }
        }
        lemma_psum_unique(fe, nc);
        if sel[v] {
            let c = choose|c: int| 0 <= c < nc && x[c] && cols[c] == v as usize;
            assert(fe(c));
        }
        if psum(fe, nc) {
            let c = choose|c: int| 0 <= c < nc && #[trigger] fe(c);
            assert(x[c] && cols[c] == v as usize);
        }
    }
    if system_holds(sys, x, nc) {
        assert forall|r: int| 0 <= r < rows_u.len() implies in_odd(g, sel, #[trigger] rows_u[r] as int)
            == upper_rhs(g, b, u, rows_u[r] as int) by {
            assert(row_holds(sys[r], x, nc));
        }
        assert forall|r: int| 0 <= r < rows_l.len() implies (in_odd(g, sel, #[trigger] rows_l[r] as int)
            != sel[rows_l[r] as int]) == lower_rhs(g, b, u, rows_l[r] as int) by {
            assert(row_holds(sys[nu + r], x, nc));
        }
    }
    if sel_eqs(g, b, u, rows_u, rows_l, sel) {
        assert forall|i: int| 0 <= i < sys.len() implies #[trigger] row_holds(sys[i], x, nc) by {
            if i < nu {
                assert(in_odd(g, sel, rows_u[i] as int) == upper_rhs(g, b, u, rows_u[i] as int));
            } else {
                let r = i - nu;
                assert(row_holds(sys[nu + r], x, nc) == ((in_odd(g, sel, rows_l[r] as int)
                    != sel[rows_l[r] as int]) == lower_rhs(g, b, u, rows_l[r] as int)));
            }
        }
    }
}

} // verus!
