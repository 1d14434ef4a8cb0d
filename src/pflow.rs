//! Maximally-delayed Pauli flow.
use crate::common::{
    adj, check_domain, count_below, difference_with, domain_ok, empty_mask, graph_simple,
    graph_wf, in_odd, in_range, initial_ok, is_clear, lemma_count_bound, lemma_count_shrinks,
    lemma_count_zero, lemma_members_in, lemma_members_sorted_complete, mask_of, members_below, members, ordered, to_mask, union_with_difference,
    Graph, Layer,
};
use crate::gf2_linalg::{pivot_col, solvable, system_holds};
use crate::parity::{lemma_dot_is_odd, lemma_psum_ext, psum, selected};
use crate::plane::{
    conds, flow_in_range, later_ok, pflow_def, plane_in, plane_of_tag, plane_ok, vertex_ok, PPlane,
};
use crate::work::{
    branch_rank, branch_system, decoded_mask, eligible, lemma_branch_sound, lemma_system_by_selection,
    lower_rhs, sel_eqs, solve_vertex, upper_rhs, BranchKind,
};
use fixedbitset::FixedBitSet;
use vstd::prelude::*;

verus! {

/// Puts a vertex into a set for the time that one vertex is examined, and
/// remembers whether it was already there.
pub struct ScopedInclude {
    pub u: Option<usize>,
}

impl ScopedInclude {
    /// Inserts `u`; `restore` takes it out again unless it was there before.
    pub fn new(target: &mut Vec<bool>, u: usize) -> (r: ScopedInclude)
        requires
            u < old(target)@.len(),
        ensures
            final(target)@ == old(target)@.update(u as int, true),
            r.u == if old(target)@[u as int] {
                None::<usize>
            } else {
                Some(u)
            },
    {
        let was = target[u];
        target.set(u, true);
        ScopedInclude { u: if was { None } else { Some(u) } }
    }

    /// Undoes `new`.
    pub fn restore(self, target: &mut Vec<bool>)
        requires
            self.u matches Some(u) ==> u < old(target)@.len(),
        ensures
            final(target)@ == match self.u {
                Some(u) => old(target)@.update(u as int, false),
                None => old(target)@,
            },
    {
        if let Some(u) = self.u {
            target.set(u, false);
        }
    }
}

/// Takes a vertex out of a set for the time that one vertex is examined, and
/// remembers whether it was there.
pub struct ScopedExclude {
    pub u: Option<usize>,
}

impl ScopedExclude {
    /// Removes `u`; `restore` puts it back if it was there before.
    pub fn new(target: &mut Vec<bool>, u: usize) -> (r: ScopedExclude)
        requires
            u < old(target)@.len(),
        ensures
            final(target)@ == old(target)@.update(u as int, false),
            r.u == if old(target)@[u as int] {
                Some(u)
            } else {
                None::<usize>
            },
    {
        let was = target[u];
        target.set(u, false);
        ScopedExclude { u: if was { Some(u) } else { None } }
    }

    /// Undoes `new`.
    pub fn restore(self, target: &mut Vec<bool>)
        requires
            self.u matches Some(u) ==> u < old(target)@.len(),
        ensures
            final(target)@ == match self.u {
                Some(u) => old(target)@.update(u as int, true),
                None => old(target)@,
            },
    {
        if let Some(u) = self.u {
            target.set(u, true);
        }
    }
}

/// A scoped inclusion or exclusion of `u`, once undone, leaves the set as it
/// was, whether or not `u` was in it.
pub proof fn lemma_scoped_restores(t: Seq<bool>, u: int)
    requires
        0 <= u < t.len(),
    ensures
        (if t[u] {
            t.update(u, true)
        } else {
            t.update(u, true).update(u, false)
        }) == t,
        (if t[u] {
            t.update(u, false).update(u, true)
        } else {
            t.update(u, false)
        }) == t,
{
    assert(t.update(u, true).update(u, false) =~= t.update(u, false));
    assert(t.update(u, false).update(u, true) =~= t.update(u, true));
    if t[u] {
        assert(t.update(u, true) =~= t);
    } else {
        assert(t.update(u, false) =~= t);
    }
}

/// The plane of each vertex, read from its integer tag.
pub open spec fn planes_of(tags: Seq<Option<u8>>) -> Seq<Option<PPlane>> {
    Seq::new(
        tags.len(),
        |u: int|
            match tags[u] {
                Some(t) => plane_of_tag(t),
                None => None,
            },
    )
}

/// Some non-output vertex sits at layer `k`.
pub open spec fn layer_used(layer: Seq<usize>, oset: Seq<bool>, k: int) -> bool {
    exists|v: int| 0 <= v < layer.len() && !oset[v] && #[trigger] layer[v] == k
}

/// Every positive layer up to the highest one holds a non-output vertex.
pub open spec fn no_gaps(layer: Seq<usize>, oset: Seq<bool>) -> bool {
    forall|u: int, k: int|
        #![trigger layer[u], layer_used(layer, oset, k)]
        0 <= u < layer.len() && 1 <= k <= layer[u] ==> layer_used(layer, oset, k)
}

/// What the caller of `find` hands over: a simple undirected graph, inputs
/// and outputs among its vertices, and a valid plane tag exactly on the
/// non-outputs.
pub open spec fn find_inputs_ok(
    g: Seq<Vec<usize>>,
    iset: Seq<usize>,
    oset: Seq<usize>,
    pplane: Seq<Option<u8>>,
) -> bool {
    &&& graph_wf(g)
    &&& graph_simple(g)
    &&& g.len() < usize::MAX / 2
    &&& in_range(iset, g.len())
    &&& in_range(oset, g.len())
    &&& pplane.len() == g.len()
    &&& forall|u: int|
        0 <= u < g.len() ==> (#[trigger] pplane[u]).is_some() == !oset.contains(u as usize)
    &&& forall|u: int| 0 <= u < g.len() && (#[trigger] pplane[u]).is_some() ==> pplane[u]->0 < 6
}

/// What a flow returned by `find` satisfies.
pub open spec fn found_ok(
    f: Seq<Option<Vec<usize>>>,
    layer: Seq<usize>,
    g: Seq<Vec<usize>>,
    iset: Seq<usize>,
    oset: Seq<usize>,
    pplane: Seq<Option<u8>>,
) -> bool {
    &&& domain_ok(f, g.len(), mask_of(iset, g.len()), mask_of(oset, g.len()))
    &&& initial_ok(layer, mask_of(oset, g.len()))
    &&& pflow_def(f, layer, g, planes_of(pplane))
    &&& no_gaps(layer, mask_of(oset, g.len()))
    &&& forall|u: int|
        0 <= u < g.len() && (#[trigger] f[u]).is_some() ==> placed_ok(
            g,
            mask_of(iset, g.len()),
            mask_of(oset, g.len()),
            planes_of(pplane),
            f[u]->0@,
            layer[u] as nat,
            u,
        )
}

/// The vertices still waiting when layer `k` of the search starts.
pub open spec fn waiting(
    g: Seq<Vec<usize>>,
    iset: Seq<bool>,
    oset: Seq<bool>,
    pplane: Seq<Option<PPlane>>,
    k: nat,
) -> Seq<bool>
    decreases k,
{
    if k == 0 {
        Seq::new(g.len(), |v: int| !oset[v])
    } else {
        step(g, iset, oset, pplane, waiting(g, iset, oset, pplane, (k - 1) as nat), k - 1)
    }
}

/// The candidates of the systems for `u` on layer `k`.
pub open spec fn layer_cols(
    g: Seq<Vec<usize>>,
    iset: Seq<bool>,
    oset: Seq<bool>,
    pplane: Seq<Option<PPlane>>,
    k: nat,
    u: int,
) -> Seq<usize> {
    members(cols_at(waiting(g, iset, oset, pplane, k), pplane, iset, k as int).update(u, false))
}

/// The system of branch `b` for `u` on layer `k`.
pub open spec fn layer_system(
    g: Seq<Vec<usize>>,
    iset: Seq<bool>,
    oset: Seq<bool>,
    pplane: Seq<Option<PPlane>>,
    k: nat,
    u: int,
    b: BranchKind,
) -> Seq<Seq<bool>> {
    let pend = waiting(g, iset, oset, pplane, k);
    branch_system(
        g,
        b,
        u,
        members(upper_at(pend, pplane, oset, k as int).update(u, true)),
        members(frontier_lower(pend, pplane).update(u, false)),
        layer_cols(g, iset, oset, pplane, k, u),
    )
}

/// `b` is the first branch, in the order XY, YZ, ZX, that the plane of `u`
/// allows and whose system on layer `k` is solvable.
pub open spec fn first_branch(
    g: Seq<Vec<usize>>,
    iset: Seq<bool>,
    oset: Seq<bool>,
    pplane: Seq<Option<PPlane>>,
    k: nat,
    u: int,
    b: BranchKind,
) -> bool {
    let nc = layer_cols(g, iset, oset, pplane, k, u).len() as int;
    &&& eligible(pplane[u]->0, b)
    &&& solvable(layer_system(g, iset, oset, pplane, k, u, b), nc)
    &&& forall|b2: BranchKind|
        eligible(pplane[u]->0, b2) && branch_rank(b2) < branch_rank(b) ==> !#[trigger] solvable(
            layer_system(g, iset, oset, pplane, k, u, b2),
            nc,
        )
}

/// `u` is accepted on layer `k` of the search, and `fu` is decoded from the
/// solution of the first solvable branch there that sets only unknowns of
/// pivot columns (unique by `lemma_pivot_solution_unique`).
pub open spec fn placed_ok(
    g: Seq<Vec<usize>>,
    iset: Seq<bool>,
    oset: Seq<bool>,
    pplane: Seq<Option<PPlane>>,
    fu: Seq<usize>,
    k: nat,
    u: int,
) -> bool {
    let cols = layer_cols(g, iset, oset, pplane, k, u);
    &&& waiting(g, iset, oset, pplane, k)[u]
    &&& !waiting(g, iset, oset, pplane, k + 1)[u]
    &&& exists|b: BranchKind, x: Seq<bool>|
        first_branch(g, iset, oset, pplane, k, u, b) && x.len() == cols.len() && #[trigger] system_holds(
            layer_system(g, iset, oset, pplane, k, u, b),
            x,
            cols.len() as int,
        ) && mask_of(fu, g.len()) == decoded_mask(b, u, x, cols, g.len()) && (forall|j: int|
            0 <= j < cols.len() && #[trigger] x[j] ==> pivot_col(
                layer_system(g, iset, oset, pplane, k, u, b),
                cols.len() as int,
                j,
            ))
}

/// Some input is accepted on a layer where its plane does not allow the XY
/// branch or that branch has no solution, so its correction set would hold it.
pub open spec fn input_needs_itself(
    g: Seq<Vec<usize>>,
    iset: Seq<bool>,
    oset: Seq<bool>,
    pplane: Seq<Option<PPlane>>,
) -> bool {
    exists|u: int, k: nat|
        0 <= u < g.len() && iset[u] && #[trigger] waiting(g, iset, oset, pplane, k)[u]
            && !waiting(g, iset, oset, pplane, k + 1)[u] && !(eligible(pplane[u]->0, BranchKind::XY)
            && solvable(
            layer_system(g, iset, oset, pplane, k, u, BranchKind::XY),
            layer_cols(g, iset, oset, pplane, k, u).len() as int,
        ))
}

/// Waiting sets only shrink, and never hold an output.
pub proof fn lemma_waiting_shrinks(
    g: Seq<Vec<usize>>,
    iset: Seq<bool>,
    oset: Seq<bool>,
    pplane: Seq<Option<PPlane>>,
    j: nat,
    k: nat,
)
    requires
        j <= k,
        oset.len() == g.len(),
    ensures
        waiting(g, iset, oset, pplane, k).len() == g.len(),
        forall|v: int|
            0 <= v < g.len() && #[trigger] waiting(g, iset, oset, pplane, k)[v] ==> waiting(
                g,
                iset,
                oset,
                pplane,
                j,
            )[v] && !oset[v],
    decreases k,
{
    if k > 0 {
        lemma_waiting_shrinks(g, iset, oset, pplane, 0, (k - 1) as nat);
        if j < k {
            lemma_waiting_shrinks(g, iset, oset, pplane, j, (k - 1) as nat);
        }
    }
}

/// A vertex accepted on layer `k` has a branch that its plane allows and whose
/// system there is solvable.
pub proof fn lemma_accepted_has_branch(
    g: Seq<Vec<usize>>,
    iset: Seq<bool>,
    oset: Seq<bool>,
    pplane: Seq<Option<PPlane>>,
    k: nat,
    u: int,
)
    requires
        0 <= u < g.len(),
        oset.len() == g.len(),
        waiting(g, iset, oset, pplane, k)[u],
        !waiting(g, iset, oset, pplane, k + 1)[u],
    ensures
        exists|b: BranchKind|
            eligible(pplane[u]->0, b) && #[trigger] solvable(
                layer_system(g, iset, oset, pplane, k, u, b),
                layer_cols(g, iset, oset, pplane, k, u).len() as int,
            ),
{
    lemma_waiting_shrinks(g, iset, oset, pplane, k, k);
    let pend = waiting(g, iset, oset, pplane, k);
    assert(waiting(g, iset, oset, pplane, k + 1) == step(g, iset, oset, pplane, pend, k as int));
    let up = upper_at(pend, pplane, oset, k as int);
    let lo = frontier_lower(pend, pplane);
    let co = cols_at(pend, pplane, iset, k as int);
    assert(!blocked(g, pplane, up, lo, co, u));
    let rows_u = members(up.update(u, true));
    let rows_l = members(lo.update(u, false));
    let cols = members(co.update(u, false));
    let b = choose|b: BranchKind|
        eligible(pplane[u]->0, b) && solvable(branch_system(g, b, u, rows_u, rows_l, cols), cols.len() as int);
    assert(layer_system(g, iset, oset, pplane, k, u, b) == branch_system(g, b, u, rows_u, rows_l, cols));
    assert(layer_cols(g, iset, oset, pplane, k, u) == cols);
}

/// An accepted vertex is in its own correction set exactly when the XY branch
/// was not available to it on its layer.
pub proof fn lemma_placed_self(
    g: Seq<Vec<usize>>,
    iset: Seq<bool>,
    oset: Seq<bool>,
    pplane: Seq<Option<PPlane>>,
    fu: Seq<usize>,
    k: nat,
    u: int,
)
    requires
        placed_ok(g, iset, oset, pplane, fu, k, u),
        0 <= u < g.len(),
        g.len() <= usize::MAX,
        oset.len() == g.len(),
        iset.len() == g.len(),
    ensures
        mask_of(fu, g.len())[u] == !(eligible(pplane[u]->0, BranchKind::XY) && solvable(
            layer_system(g, iset, oset, pplane, k, u, BranchKind::XY),
            layer_cols(g, iset, oset, pplane, k, u).len() as int,
        )),
{
    let cols = layer_cols(g, iset, oset, pplane, k, u);
    let (b, x) = choose|b: BranchKind, x: Seq<bool>|
        first_branch(g, iset, oset, pplane, k, u, b) && x.len() == cols.len() && #[trigger] system_holds(
            layer_system(g, iset, oset, pplane, k, u, b),
            x,
            cols.len() as int,
        ) && mask_of(fu, g.len()) == decoded_mask(b, u, x, cols, g.len()) && (forall|j: int|
            0 <= j < cols.len() && #[trigger] x[j] ==> pivot_col(
                layer_system(g, iset, oset, pplane, k, u, b),
                cols.len() as int,
                j,
            ));
    let cm = cols_at(waiting(g, iset, oset, pplane, k), pplane, iset, k as int).update(u, false);
    lemma_waiting_shrinks(g, iset, oset, pplane, k, k);
    lemma_members_in(cm, g.len() as int);
    assert(!exists|c: int| 0 <= c < cols.len() && x[c] && cols[c] == u as usize) by {
        if exists|c: int| 0 <= c < cols.len() && x[c] && cols[c] == u as usize {
            let c = choose|c: int| 0 <= c < cols.len() && x[c] && cols[c] == u as usize;
            assert(cm[cols[c] as int]);
        }
    }
    if b != BranchKind::XY {
        assert(branch_rank(BranchKind::XY) < branch_rank(b));
    }
}

/// An accepted vertex `u` meets what its plane asks, and its correction set
/// meets `conds` on every other vertex still waiting for a layer or placed in
/// a layer at least that of `u`.
pub open spec fn settled_ok(
    g: Seq<Vec<usize>>,
    f: Seq<Option<Vec<usize>>>,
    layer: Seq<usize>,
    pplane: Seq<Option<PPlane>>,
    ocset: Seq<bool>,
    u: int,
) -> bool {
    &&& plane_ok(
        pplane[u]->0,
        mask_of(f[u]->0@, g.len())[u],
        in_odd(g, mask_of(f[u]->0@, g.len()), u),
    )
    &&& forall|v: int|
        0 <= v < g.len() && v != u && ((ocset[v] && f[v].is_none()) || layer[u] <= layer[v])
            ==> #[trigger] conds(g, pplane, mask_of(f[u]->0@, g.len()), v)
}

/// The system for `u` cannot be set up, or no branch that the plane of `u`
/// allows is solvable, when the upper rows, lower rows and candidates are the
/// members of `up`, `lo` and `co`, with `u` put among the upper rows and taken
/// out of the others.
pub open spec fn blocked(
    g: Seq<Vec<usize>>,
    pplane: Seq<Option<PPlane>>,
    up: Seq<bool>,
    lo: Seq<bool>,
    co: Seq<bool>,
    u: int,
) -> bool {
    let rows_u = members(up.update(u, true));
    let rows_l = members(lo.update(u, false));
    let cols = members(co.update(u, false));
    (rows_u.len() + rows_l.len() == 0 || cols.len() == 0) || forall|b: BranchKind|
        eligible(pplane[u]->0, b) ==> !#[trigger] solvable(
            branch_system(g, b, u, rows_u, rows_l, cols),
            cols.len() as int,
        )
}

/// Upper rows while the vertices of `pend` wait: those not measured in Y or Z.
pub open spec fn frontier_upper(pend: Seq<bool>, pplane: Seq<Option<PPlane>>) -> Seq<bool> {
    Seq::new(pend.len(), |v: int| pend[v] && !plane_in(pplane[v], PPlane::Y, PPlane::Z))
}

/// Lower rows while the vertices of `pend` wait: those measured in Y.
pub open spec fn frontier_lower(pend: Seq<bool>, pplane: Seq<Option<PPlane>>) -> Seq<bool> {
    Seq::new(pend.len(), |v: int| pend[v] && pplane[v] == Some(PPlane::Y))
}

/// Candidates while the vertices of `pend` wait: non-inputs that are measured
/// in X or Y or are not waiting.
pub open spec fn frontier_cols(pend: Seq<bool>, pplane: Seq<Option<PPlane>>, iset: Seq<bool>) -> Seq<bool> {
    Seq::new(
        pend.len(),
        |v: int| !iset[v] && (plane_in(pplane[v], PPlane::X, PPlane::Y) || !pend[v]),
    )
}

/// Upper rows on layer `l` while the vertices of `pend` wait: on layer 0 the
/// outputs are among them too.
pub open spec fn upper_at(pend: Seq<bool>, pplane: Seq<Option<PPlane>>, oset: Seq<bool>, l: int) -> Seq<bool> {
    Seq::new(
        pend.len(),
        |v: int| (pend[v] || (oset[v] && l == 0)) && !plane_in(pplane[v], PPlane::Y, PPlane::Z),
    )
}

/// Candidates on layer `l` while the vertices of `pend` wait: on layer 0 only
/// the non-inputs measured in X or Y.
pub open spec fn cols_at(pend: Seq<bool>, pplane: Seq<Option<PPlane>>, iset: Seq<bool>, l: int) -> Seq<bool> {
    Seq::new(
        pend.len(),
        |v: int| !iset[v] && (plane_in(pplane[v], PPlane::X, PPlane::Y) || (l > 0 && !pend[v])),
    )
}

/// The vertices of `pend` that layer `l` cannot correct.
pub open spec fn step(
    g: Seq<Vec<usize>>,
    iset: Seq<bool>,
    oset: Seq<bool>,
    pplane: Seq<Option<PPlane>>,
    pend: Seq<bool>,
    l: int,
) -> Seq<bool> {
    Seq::new(
        pend.len(),
        |v: int|
            pend[v] && blocked(
                g,
                pplane,
                upper_at(pend, pplane, oset, l),
                frontier_lower(pend, pplane),
                cols_at(pend, pplane, iset, l),
                v,
            ),
    )
}

/// The layered search that starts from the waiting set `pend` on layer `l`
/// corrects every vertex within `fuel` more layers; it gives up on a layer
/// after the first that corrects nothing.
pub open spec fn search_ok(
    g: Seq<Vec<usize>>,
    iset: Seq<bool>,
    oset: Seq<bool>,
    pplane: Seq<Option<PPlane>>,
    pend: Seq<bool>,
    l: int,
    fuel: nat,
) -> bool
    decreases fuel,
{
    if forall|v: int| 0 <= v < pend.len() ==> !#[trigger] pend[v] {
        true
    } else if fuel == 0 {
        false
    } else {
        let next = step(g, iset, oset, pplane, pend, l);
        if l > 0 && next == pend {
            false
        } else {
            search_ok(g, iset, oset, pplane, next, l + 1, (fuel - 1) as nat)
        }
    }
}

/// The Pauli search on `(g, iset, oset)` with planes given by their tags
/// corrects every non-output.
pub open spec fn pflow_search_ok(
    g: Seq<Vec<usize>>,
    iset: Seq<usize>,
    oset: Seq<usize>,
    pplane: Seq<Option<u8>>,
) -> bool {
    let omask = mask_of(oset, g.len());
    search_ok(
        g,
        mask_of(iset, g.len()),
        omask,
        planes_of(pplane),
        Seq::new(g.len(), |v: int| !omask[v]),
        0,
        (g.len() + 1) as nat,
    )
}

/// `pend` is a non-empty set of non-outputs none of which can be corrected
/// once all other vertices are.
pub open spec fn stalled(
    g: Seq<Vec<usize>>,
    iset: Seq<bool>,
    oset: Seq<bool>,
    pplane: Seq<Option<PPlane>>,
    pend: Seq<bool>,
) -> bool {
    &&& pend.len() == g.len()
    &&& exists|v: int| 0 <= v < pend.len() && #[trigger] pend[v]
    &&& forall|v: int| 0 <= v < pend.len() && #[trigger] pend[v] ==> !oset[v]
    &&& forall|u: int|
        0 <= u < pend.len() && #[trigger] pend[u] ==> blocked(
            g,
            pplane,
            frontier_upper(pend, pplane),
            frontier_lower(pend, pplane),
            frontier_cols(pend, pplane, iset),
            u,
        )
}

/// No vertex of the correction set `f_u` of `u` is an input, except `u` itself
/// when it is not measured in XY.
pub open spec fn input_free(
    n: nat,
    f_u: Seq<usize>,
    iset: Seq<bool>,
    pplane: Seq<Option<PPlane>>,
    u: int,
) -> bool {
    forall|x: int|
        0 <= x < n && #[trigger] mask_of(f_u, n)[x] && iset[x] ==> x == u && pplane[u] != Some(
            PPlane::XY,
        )
}

/// Searches a maximally-delayed Pauli flow of the open graph `(g, iset, oset)`
/// with measurement planes given by their tags (XY=0, YZ=1, ZX=2, X=3, Y=4,
/// Z=5). Layer by layer, each uncorrected vertex is accepted when one of the
/// linear systems that its plane allows is solvable over the vertices accepted
/// in earlier layers. A flow in which an input would have to be in its own
/// correction set (possible only for an input not measured in XY) is reported
/// as absent.
pub fn find(g: Graph, iset: Vec<usize>, oset: Vec<usize>, pplane: Vec<Option<u8>>) -> (r: Option<
    (Vec<Option<Vec<usize>>>, Layer),
>)
    requires
        find_inputs_ok(g@, iset@, oset@, pplane@),
    ensures
        r matches Some((f, layer)) ==> found_ok(f@, layer@, g@, iset@, oset@, pplane@),
        r is None ==> (exists|pend: Seq<bool>|
            #[trigger] stalled(
                g@,
                mask_of(iset@, g@.len()),
                mask_of(oset@, g@.len()),
                planes_of(pplane@),
                pend,
            )) || input_needs_itself(g@, mask_of(iset@, g@.len()), mask_of(oset@, g@.len()), planes_of(pplane@)),
        r.is_some() == (pflow_search_ok(g@, iset@, oset@, pplane@) && !input_needs_itself(
            g@,
            mask_of(iset@, g@.len()),
            mask_of(oset@, g@.len()),
            planes_of(pplane@),
        )),
        (forall|v: int| 0 <= v < g@.len() ==> #[trigger] mask_of(oset@, g@.len())[v]) ==> (
        r matches Some((f, layer)) && (forall|v: int|
            0 <= v < g@.len() ==> (#[trigger] f@[v]).is_none() && layer@[v] == 0)),
{
    let n = g.len();
    let imask = to_mask(&iset, n);
    let omask = to_mask(&oset, n);
    let ghost pp = planes_of(pplane@);
    let mut planes: Vec<Option<PPlane>> = Vec::new();
    let mut ocset: Vec<bool> = Vec::new();
    let mut rowset_upper: Vec<bool> = Vec::new();
    let mut rowset_lower: Vec<bool> = Vec::new();
    let mut colset: Vec<bool> = Vec::new();
    let mut f: Vec<Option<Vec<usize>>> = Vec::new();
    let mut layer: Vec<usize> = Vec::new();
    let mut v: usize = 0;
    while v < n
        invariant
            v <= n,
            n == g@.len(),
            find_inputs_ok(g@, iset@, oset@, pplane@),
            pp == planes_of(pplane@),
            omask@ == mask_of(oset@, n as nat),
            imask@ == mask_of(iset@, n as nat),
            planes@.len() == v,
            ocset@.len() == v,
            rowset_upper@.len() == v,
            rowset_lower@.len() == v,
            colset@.len() == v,
            f@.len() == v,
            layer@.len() == v,
            forall|w: int| 0 <= w < v ==> #[trigger] planes@[w] == pp[w],
            forall|w: int| 0 <= w < v ==> #[trigger] ocset@[w] == !omask@[w],
            forall|w: int| 0 <= w < v ==> (#[trigger] f@[w]).is_none(),
            forall|w: int| 0 <= w < v ==> #[trigger] layer@[w] == 0,
            forall|w: int|
                0 <= w < v ==> #[trigger] rowset_upper@[w] == !plane_in(
                    pp[w],
                    PPlane::Y,
                    PPlane::Z,
                ),
            forall|w: int| 0 <= w < v ==> #[trigger] rowset_lower@[w] == (pp[w] == Some(PPlane::Y)),
            forall|w: int|
                0 <= w < v ==> #[trigger] colset@[w] == (plane_in(pp[w], PPlane::X, PPlane::Y)
                    && !imask@[w]),
        decreases n - v,
    {
        let p = match pplane[v] {
            Some(t) => PPlane::from_u8(t),
            None => None,
        };
        planes.push(p);
        ocset.push(!omask[v]);
        rowset_upper.push(!(p == Some(PPlane::Y) || p == Some(PPlane::Z)));
        rowset_lower.push(p == Some(PPlane::Y));
        colset.push((p == Some(PPlane::X) || p == Some(PPlane::Y)) && !imask[v]);
        f.push(None);
        layer.push(0);
        v = v + 1;
    }
    assert(planes@ =~= pp);
    assert forall|w: int| 0 <= w < n implies (#[trigger] pp[w]).is_some() == !omask@[w] by {
        assert(pplane@[w].is_some() == !oset@.contains(w as usize));
    }
    let ghost start = Seq::new(n as nat, |w: int| !omask@[w]);
    let ghost verdict = search_ok(g@, imask@, omask@, pp, start, 0, (n + 1) as nat);
    assert(ocset@ =~= start);
    let mut work: Vec<FixedBitSet> = Vec::new();
    let mut l: usize = 0;
    let mut stop = false;
    while l <= n && !stop
        invariant
            n == g@.len(),
            n < usize::MAX / 2,
            graph_wf(g@),
            graph_simple(g@),
            find_inputs_ok(g@, iset@, oset@, pplane@),
            omask@ == mask_of(oset@, n as nat),
            imask@ == mask_of(iset@, n as nat),
            planes@ == pp,
            pp == planes_of(pplane@),
            forall|w: int| 0 <= w < n ==> (#[trigger] pp[w]).is_some() == !omask@[w],
            ocset@.len() == n,
            rowset_upper@.len() == n,
            rowset_lower@.len() == n,
            colset@.len() == n,
            f@.len() == n,
            layer@.len() == n,
            flow_in_range(f@, n as nat),
            forall|w: int|
                0 <= w < n ==> #[trigger] rowset_upper@[w] == ((ocset@[w] || (omask@[w] && l == 0))
                    && !plane_in(pp[w], PPlane::Y, PPlane::Z)),
            forall|w: int|
                0 <= w < n ==> #[trigger] rowset_lower@[w] == (ocset@[w] && pp[w] == Some(
                    PPlane::Y,
                )),
            forall|w: int|
                0 <= w < n ==> #[trigger] colset@[w] == (!imask@[w] && (plane_in(
                    pp[w],
                    PPlane::X,
                    PPlane::Y,
                ) || (l > 0 && (omask@[w] || (f@[w].is_some() && !ocset@[w]))))),
            forall|w: int|
                0 <= w < n && (#[trigger] f@[w]).is_some() ==> input_free(
                    n as nat,
                    f@[w]->0@,
                    imask@,
                    pp,
                    w,
                ),
            ocset@ == waiting(g@, imask@, omask@, pp, l as nat),
            forall|w: int|
                0 <= w < n && (#[trigger] f@[w]).is_some() ==> placed_ok(
                    g@,
                    imask@,
                    omask@,
                    pp,
                    f@[w]->0@,
                    layer@[w] as nat,
                    w,
                ),
            !stop ==> (l >= 1 ==> count_below(ocset@, n as int) + l <= n + 1),
            stop ==> l >= 1,
            verdict == search_ok(g@, imask@, omask@, pp, start, 0, (n + 1) as nat),
            !stop ==> verdict == search_ok(g@, imask@, omask@, pp, ocset@, l as int, (n + 1 - l) as nat),
            stop ==> (verdict <==> forall|w: int| 0 <= w < n ==> !#[trigger] ocset@[w]),
            stop ==> stalled(g@, imask@, omask@, pp, ocset@) || forall|w: int|
                0 <= w < n ==> !#[trigger] ocset@[w],
            forall|w: int| 0 <= w < n && !omask@[w] && !ocset@[w] ==> (#[trigger] f@[w]).is_some(),
            forall|w: int| 0 <= w < n && (#[trigger] f@[w]).is_some() ==> !ocset@[w] && layer@[w] < l,
            forall|w: int| 0 <= w < n && #[trigger] ocset@[w] ==> !omask@[w],
            forall|w: int| 0 <= w < n && (#[trigger] f@[w]).is_some() ==> !omask@[w],
            forall|w: int| 0 <= w < n && (#[trigger] f@[w]).is_none() ==> layer@[w] == 0,
            forall|w: int| 0 <= w < n ==> #[trigger] layer@[w] < l || layer@[w] == 0,
            forall|k: int| 1 <= k < l ==> #[trigger] layer_used(layer@, omask@, k),
            forall|w: int|
                0 <= w < n && (#[trigger] f@[w]).is_some() ==> settled_ok(
                    g@,
                    f@,
                    layer@,
                    pp,
                    ocset@,
                    w,
                ),
        decreases n + 1 - l, if stop {
            0int
        } else {
            1int
        },
    {
        proof {
            assert(rowset_upper@ =~= upper_at(ocset@, pp, omask@, l as int));
            assert(rowset_lower@ =~= frontier_lower(ocset@, pp));
            assert forall|w: int| 0 <= w < n implies #[trigger] colset@[w] == cols_at(ocset@, pp, imask@, l as int)[w] by {
                if !ocset@[w] && !omask@[w] {
                    assert(f@[w].is_some());
                }
            }
            assert(colset@ =~= cols_at(ocset@, pp, imask@, l as int));
        }
        let mut cset = empty_mask(n);
        let mut u: usize = 0;
        while u < n
            invariant
                n == g@.len(),
                n < usize::MAX / 2,
                graph_wf(g@),
                graph_simple(g@),
                l <= n,
                u <= n,
                planes@ == pp,
                pp.len() == n,
                forall|w: int| 0 <= w < n ==> (#[trigger] pp[w]).is_some() == !omask@[w],
                omask@.len() == n,
                imask@.len() == n,
                ocset@.len() == n,
                rowset_upper@.len() == n,
                rowset_lower@.len() == n,
                colset@.len() == n,
                cset@.len() == n,
                f@.len() == n,
                layer@.len() == n,
                flow_in_range(f@, n as nat),
                forall|w: int|
                    0 <= w < n ==> #[trigger] rowset_upper@[w] == ((ocset@[w] || (omask@[w] && l
                        == 0)) && !plane_in(pp[w], PPlane::Y, PPlane::Z)),
                forall|w: int|
                    0 <= w < n ==> #[trigger] rowset_lower@[w] == (ocset@[w] && pp[w] == Some(
                        PPlane::Y,
                    )),
                forall|w: int|
                    0 <= w < n ==> #[trigger] colset@[w] == (!imask@[w] && (plane_in(
                        pp[w],
                        PPlane::X,
                        PPlane::Y,
                    ) || (l > 0 && (omask@[w] || (f@[w].is_some() && !ocset@[w]))))),
                forall|w: int|
                    0 <= w < n && (#[trigger] f@[w]).is_some() ==> input_free(
                        n as nat,
                        f@[w]->0@,
                        imask@,
                        pp,
                        w,
                    ),
                ocset@ == waiting(g@, imask@, omask@, pp, l as nat),
                forall|w: int|
                    0 <= w < n && (#[trigger] f@[w]).is_some() ==> placed_ok(
                        g@,
                        imask@,
                        omask@,
                        pp,
                        f@[w]->0@,
                        layer@[w] as nat,
                        w,
                    ),
                forall|w: int|
                    0 <= w < u && ocset@[w] && !cset@[w] ==> #[trigger] blocked(
                        g@,
                        pp,
                        rowset_upper@,
                        rowset_lower@,
                        colset@,
                        w,
                    ),
                forall|w: int| 0 <= w < n && !omask@[w] && !ocset@[w] ==> (#[trigger] f@[w]).is_some(),
                forall|w: int|
                    0 <= w < n && (#[trigger] f@[w]).is_some() ==> (!ocset@[w] && layer@[w] < l) || (
                    ocset@[w] && cset@[w]),
                forall|w: int| u <= w < n ==> !#[trigger] cset@[w],
                rowset_upper@ == upper_at(ocset@, pp, omask@, l as int),
                rowset_lower@ == frontier_lower(ocset@, pp),
                colset@ == cols_at(ocset@, pp, imask@, l as int),
                forall|w: int|
                    0 <= w < u ==> #[trigger] cset@[w] == (ocset@[w] && !blocked(
                        g@,
                        pp,
                        rowset_upper@,
                        rowset_lower@,
                        colset@,
                        w,
                    )),
                forall|w: int| 0 <= w < n && #[trigger] ocset@[w] ==> !omask@[w],
                forall|w: int|
                    0 <= w < n && #[trigger] cset@[w] ==> layer@[w] == l && f@[w].is_some(),
                forall|w: int| 0 <= w < n && (#[trigger] f@[w]).is_some() ==> !omask@[w],
                forall|w: int| 0 <= w < n && (#[trigger] f@[w]).is_none() ==> layer@[w] == 0,
                forall|w: int| 0 <= w < n ==> #[trigger] layer@[w] < l || layer@[w] == 0 || cset@[w],
                forall|k: int| 1 <= k < l ==> #[trigger] layer_used(layer@, omask@, k),
                forall|w: int|
                    0 <= w < n && (#[trigger] f@[w]).is_some() ==> settled_ok(
                        g@,
                        f@,
                        layer@,
                        pp,
                        ocset@,
                        w,
                    ),
            decreases n - u,
        {
            if ocset[u] {
                let ghost up0 = rowset_upper@;
                let ghost lo0 = rowset_lower@;
                let ghost co0 = colset@;
                let inc = ScopedInclude::new(&mut rowset_upper, u);
                let exl = ScopedExclude::new(&mut rowset_lower, u);
                let exc = ScopedExclude::new(&mut colset, u);
                let rows_u = ordered(&rowset_upper);
                let rows_l = ordered(&rowset_lower);
                let cols = ordered(&colset);
                assert(pp[u as int].is_some());
                if rows_u.len() + rows_l.len() > 0 && cols.len() > 0 {
                    if let Some(pu) = planes[u] {
                        let (w, res) = solve_vertex(pu, work, u, &g, &rows_u, &rows_l, &cols);
                        work = w;
                        if res.is_none() {
                            assert(blocked(g@, pp, up0, lo0, co0, u as int));
                        }
                        if let Some(fu) = res {
                            let ghost lay0 = layer@;
                            let ghost f0 = f@;
                            let ghost s = mask_of(fu@, n as nat);
                            let ghost b = choose|b: BranchKind, x: Seq<bool>|
                                eligible(pu, b) && x.len() == cols@.len() && #[trigger] system_holds(
                                    branch_system(g@, b, u as int, rows_u@, rows_l@, cols@),
                                    x,
                                    cols@.len() as int,
                                ) && mask_of(fu@, g@.len()) == decoded_mask(b, u as int, x, cols@, g@.len()) && (forall|j: int|
                                    0 <= j < cols@.len() && #[trigger] x[j] ==> pivot_col(
                                        branch_system(g@, b, u as int, rows_u@, rows_l@, cols@),
                                        cols@.len() as int,
                                        j,
                                    )) && (
                                forall|b2: BranchKind|
                                    eligible(pu, b2) && branch_rank(b2) < branch_rank(b) ==> !#[trigger] solvable(
                                        branch_system(g@, b2, u as int, rows_u@, rows_l@, cols@),
                                        cols@.len() as int,
                                    ));
                            proof {
                                let (b, x) = b;
                                let kl = l as nat;
                                assert(rows_u@ == members(upper_at(waiting(g@, imask@, omask@, pp, kl), pp, omask@, l as int).update(u as int, true)));
                                assert(rows_l@ == members(frontier_lower(waiting(g@, imask@, omask@, pp, kl), pp).update(u as int, false)));
                                assert(cols@ == layer_cols(g@, imask@, omask@, pp, kl, u as int));
                                assert forall|b2: BranchKind| #[trigger] layer_system(g@, imask@, omask@, pp, kl, u as int, b2)
                                    == branch_system(g@, b2, u as int, rows_u@, rows_l@, cols@) by {
                                }
                                assert(solvable(branch_system(g@, b, u as int, rows_u@, rows_l@, cols@), cols@.len() as int));
                                assert(first_branch(g@, imask@, omask@, pp, kl, u as int, b));
                                assert(!blocked(g@, pp, up0, lo0, co0, u as int));
                                assert(!waiting(g@, imask@, omask@, pp, kl + 1)[u as int]);
                                assert(placed_ok(g@, imask@, omask@, pp, fu@, kl, u as int));
                                assert(!cols@.contains(u)) by {
                                    if cols@.contains(u) {
                                        let k = choose|k: int| 0 <= k < cols@.len() && cols@[k] == u;
                                        assert(colset@[cols@[k] as int]);
                                    }
                                }
                                lemma_branch_sound(g@, b, u, rows_u@, rows_l@, cols@, x);
                                assert forall|x2: int| 0 <= x2 < n && #[trigger] s[x2] && imask@[x2] implies x2 == u
                                    && pp[u as int] != Some(PPlane::XY) by {
                                    if x2 != u {
                                        assert(cols@.contains(x2 as usize));
                                        let k = choose|k: int| 0 <= k < cols@.len() && cols@[k] == x2 as usize;
                                        assert(colset@[cols@[k] as int]);
                                        assert(co0[x2]);
                                    }
                                }
                                assert(rows_u@.contains(u));
                                let ru = choose|r: int| 0 <= r < rows_u@.len() && rows_u@[r] == u;
                                assert(in_odd(g@, s, rows_u@[ru] as int) == (b != BranchKind::YZ));
                                assert(plane_ok(pu, s[u as int], in_odd(g@, s, u as int)));
                                assert forall|v2: int|
                                    0 <= v2 < n && v2 != u && ((ocset@[v2] && f0[v2].is_none()) || l <= lay0[v2])
                                    implies #[trigger] conds(g@, pp, s, v2) by {
                                    assert(ocset@[v2] || (omask@[v2] && l == 0)) by {
                                        if !ocset@[v2] {
                                            if f0[v2].is_some() {
                                                assert(lay0[v2] < l);
                                            } else {
                                                assert(omask@[v2]);
                                            }
                                        }
                                    }
                                    if s[v2] {
                                        assert(cols@.contains(v2 as usize));
                                        let k = choose|k: int| 0 <= k < cols@.len() && cols@[k] == v2 as usize;
                                        assert(colset@[cols@[k] as int]);
                                        assert(co0[v2]);
                                    }
                                    if !plane_in(pp[v2], PPlane::Y, PPlane::Z) {
                                        assert(up0[v2]);
                                        assert(rowset_upper@[v2]);
                                        assert(rows_u@.contains(v2 as usize));
                                        let r = choose|r: int| 0 <= r < rows_u@.len() && rows_u@[r] == v2 as usize;
                                        assert(!in_odd(g@, s, rows_u@[r] as int));
                                    }
                                    if pp[v2] == Some(PPlane::Y) {
                                        assert(lo0[v2]);
                                        assert(rowset_lower@[v2]);
                                        assert(rows_l@.contains(v2 as usize));
                                        let r = choose|r: int| 0 <= r < rows_l@.len() && rows_l@[r] == v2 as usize;
                                        assert(in_odd(g@, s, rows_l@[r] as int) == s[rows_l@[r] as int]);
                                    }
                                }
                            }
                            f.set(u, Some(fu));
                            layer.set(u, l);
                            cset.set(u, true);
                            assert forall|k: int| 1 <= k < l implies #[trigger] layer_used(layer@, omask@, k) by {
                                assert(layer_used(lay0, omask@, k));
                                let v2 = choose|v2: int| 0 <= v2 < n && !omask@[v2] && #[trigger] lay0[v2] == k;
                                assert(layer@[v2] == k);
                            }
                            assert forall|w2: int| 0 <= w2 < n && (#[trigger] f@[w2]).is_some() implies settled_ok(
                                g@,
                                f@,
                                layer@,
                                pp,
                                ocset@,
                                w2,
                            ) by {
                                if w2 != u {
                                    assert(settled_ok(g@, f0, lay0, pp, ocset@, w2));
                                    assert(f@[w2] == f0[w2]);
                                    assert(lay0[w2] <= l);
                                }
                            }
                        }
                    }
                }
                else {
                    assert(blocked(g@, pp, up0, lo0, co0, u as int));
                }
                exc.restore(&mut colset);
                exl.restore(&mut rowset_lower);
                inc.restore(&mut rowset_upper);
                proof {
                    lemma_scoped_restores(up0, u as int);
                    lemma_scoped_restores(lo0, u as int);
                    lemma_scoped_restores(co0, u as int);
                }
                assert(rowset_upper@ == up0);
                assert(rowset_lower@ == lo0);
                assert(colset@ == co0);
            }
            u = u + 1;
        }
        let ghost nxt = step(g@, imask@, omask@, pp, ocset@, l as int);
        assert forall|w: int| 0 <= w < n implies #[trigger] nxt[w] == (ocset@[w] && !cset@[w]) by {
        }
        let ghost oc0 = ocset@;
        let ghost f1 = f@;
        if l == 0 {
            difference_with(&mut rowset_upper, &omask);
            difference_with(&mut rowset_lower, &omask);
            union_with_difference(&mut colset, &omask, &imask);
        } else if is_clear(&cset) {
            stop = true;
            proof {
                let pend = ocset@;
                assert(rowset_upper@ =~= frontier_upper(pend, pp));
                assert(rowset_lower@ =~= frontier_lower(pend, pp));
                assert forall|w: int| 0 <= w < n implies #[trigger] colset@[w] == frontier_cols(pend, pp, imask@)[w] by {
                    if !pend[w] && !omask@[w] {
                        assert(f@[w].is_some());
                    }
                }
                assert(colset@ =~= frontier_cols(pend, pp, imask@));
                assert forall|w: int| 0 <= w < n && #[trigger] pend[w] implies blocked(
                    g@,
                    pp,
                    frontier_upper(pend, pp),
                    frontier_lower(pend, pp),
                    frontier_cols(pend, pp, imask@),
                    w,
                ) by {
                    assert(!cset@[w]);
                    assert(blocked(g@, pp, rowset_upper@, rowset_lower@, colset@, w));
                }
                if exists|w: int| 0 <= w < n && #[trigger] pend[w] {
                    assert(stalled(g@, imask@, omask@, pp, pend));
                }
                assert(nxt =~= pend);
                assert(verdict == search_ok(g@, imask@, omask@, pp, pend, l as int, (n + 1 - l) as nat));
            }
        }
        if !stop {
            if !is_clear(&cset) {
                let ghost w = choose|w: int| 0 <= w < n && cset@[w];
                assert(layer_used(layer@, omask@, l as int)) by {
                    assert(layer@[w] == l);
                }
            }
            let ghost cs = cset@;
            difference_with(&mut ocset, &cset);
            difference_with(&mut rowset_upper, &cset);
            difference_with(&mut rowset_lower, &cset);
            union_with_difference(&mut colset, &cset, &imask);
            proof {
                assert(ocset@ =~= nxt);
                if l >= 1 {
                    let w = choose|w: int| 0 <= w < n && cs[w];
                    assert(nxt[w] != oc0[w]);
                }
                assert(search_ok(g@, imask@, omask@, pp, oc0, l as int, (n + 1 - l) as nat)
                    == search_ok(g@, imask@, omask@, pp, nxt, l + 1, (n + 1 - (l + 1)) as nat));
                assert forall|w: int| 0 <= w < n && #[trigger] ocset@[w] implies oc0[w] by {
                }
                lemma_count_shrinks(oc0, ocset@, n as int);
                lemma_count_bound(oc0, n as int);
                if l >= 1 {
                    let w = choose|w: int| 0 <= w < n && cs[w];
                    assert(oc0[w] && !ocset@[w]);
                }
            }
            assert forall|w2: int| 0 <= w2 < n && (#[trigger] f@[w2]).is_some() implies settled_ok(
                g@,
                f@,
                layer@,
                pp,
                ocset@,
                w2,
            ) by {
                assert(settled_ok(g@, f1, layer@, pp, oc0, w2));
                assert forall|v2: int|
                    0 <= v2 < n && v2 != w2 && ((ocset@[v2] && f@[v2].is_none()) || layer@[w2] <= layer@[v2])
                    implies #[trigger] conds(g@, pp, mask_of(f@[w2]->0@, n as nat), v2) by {
                    assert(oc0[v2] || !ocset@[v2]);
                }
            }
            l = l + 1;
        }
    }
    if !is_clear(&ocset) {
        proof {
            if !stop {
                lemma_count_zero(ocset@, n as int);
            }
            assert(stalled(g@, imask@, omask@, pp, ocset@));
        }
        return None;
    }
    proof {
        assert forall|u2: int, k: int|
            #![trigger layer@[u2], layer_used(layer@, omask@, k)]
            0 <= u2 < n && 1 <= k <= layer@[u2] implies layer_used(layer@, omask@, k) by {
            assert(layer@[u2] < l);
        }
        assert forall|w: int| 0 <= w < n && omask@[w] implies #[trigger] layer@[w] == 0 by {
            assert(f@[w].is_none());
        }
        assert(initial_ok(layer@, omask@));
        assert forall|w: int| 0 <= w < n implies (#[trigger] f@[w]).is_some() == planes@[w].is_some() by {
            if !omask@[w] {
                assert(!ocset@[w]);
            }
        }
        assert forall|w: int| 0 <= w < n && (#[trigger] f@[w]).is_some() implies vertex_ok(
            g@,
            layer@,
            planes@,
            w,
            mask_of(f@[w]->0@, n as nat),
        ) by {
            assert(settled_ok(g@, f@, layer@, pp, ocset@, w));
            assert forall|v2: int| 0 <= v2 < n implies #[trigger] later_ok(
                g@,
                layer@,
                planes@,
                w,
                mask_of(f@[w]->0@, n as nat),
                v2,
            ) by {
                if v2 != w && layer@[w] <= layer@[v2] {
                    assert(conds(g@, pp, mask_of(f@[w]->0@, n as nat), v2));
                }
            }
        }
        assert(pflow_def(f@, layer@, g@, planes@));
        if forall|v: int| 0 <= v < n ==> #[trigger] mask_of(oset@, n as nat)[v] {
            assert forall|w: int| 0 <= w < n implies (#[trigger] f@[w]).is_none() by {
                assert(mask_of(oset@, n as nat)[w]);
            }
            assert(domain_ok(f@, n as nat, imask@, omask@));
        }
    }
    if check_domain(&f, &imask, &omask) {
        proof {
            if input_needs_itself(g@, imask@, omask@, pp) {
                let (u2, k2) = choose|u2: int, k2: nat|
                    0 <= u2 < n && imask@[u2] && #[trigger] waiting(g@, imask@, omask@, pp, k2)[u2]
                        && !waiting(g@, imask@, omask@, pp, k2 + 1)[u2] && !(eligible(pp[u2]->0, BranchKind::XY)
                        && solvable(
                        layer_system(g@, imask@, omask@, pp, k2, u2, BranchKind::XY),
                        layer_cols(g@, imask@, omask@, pp, k2, u2).len() as int,
                    ));
                lemma_waiting_shrinks(g@, imask@, omask@, pp, 0, k2);
                assert(!ocset@[u2]);
                assert(f@[u2].is_some());
                let lu = layer@[u2] as nat;
                assert(placed_ok(g@, imask@, omask@, pp, f@[u2]->0@, lu, u2));
                if k2 < lu {
                    lemma_waiting_shrinks(g@, imask@, omask@, pp, k2 + 1, lu);
                } else if lu < k2 {
                    lemma_waiting_shrinks(g@, imask@, omask@, pp, lu + 1, k2);
                }
                assert(k2 == lu);
                lemma_placed_self(g@, imask@, omask@, pp, f@[u2]->0@, lu, u2);
                let i2 = choose|i2: int| 0 <= i2 < f@[u2]->0@.len() && f@[u2]->0@[i2] == u2 as usize;
                assert(imask@[f@[u2]->0@[i2] as int]);
                assert(!domain_ok(f@, n as nat, imask@, omask@));
            }
        }
        Some((f, layer))
    } else {
        proof {
            if !input_needs_itself(g@, imask@, omask@, pp) {
                assert forall|u2: int, k: int|
                    0 <= u2 < n && f@[u2].is_some() && 0 <= k < f@[u2]->0@.len() implies (
                    #[trigger] f@[u2]->0@[k]) < n && !imask@[f@[u2]->0@[k] as int] by {
                    let x2 = f@[u2]->0@[k] as int;
                    assert(flow_in_range(f@, n as nat));
                    assert(in_range(f@[u2]->0@, n as nat));
                    assert(mask_of(f@[u2]->0@, n as nat)[x2]);
                    assert(input_free(n as nat, f@[u2]->0@, imask@, pp, u2));
                    if imask@[x2] {
                        let lu = layer@[u2] as nat;
                        assert(placed_ok(g@, imask@, omask@, pp, f@[u2]->0@, lu, u2));
                        lemma_placed_self(g@, imask@, omask@, pp, f@[u2]->0@, lu, u2);
                        assert(waiting(g@, imask@, omask@, pp, lu)[u2]);
                    }
                }
                assert forall|u2: int| 0 <= u2 < n implies (#[trigger] f@[u2]).is_some() == !omask@[u2] by {
                    if !omask@[u2] {
                        assert(!ocset@[u2]);
                    }
                }
                assert(domain_ok(f@, n as nat, imask@, omask@));
            }
        }
        None
    }
}

/// Only the neighbour lists of outputs differ between `g` and `g2`: in a
/// simple undirected graph, the two differ by edges between outputs alone.
pub open spec fn same_off_outputs(g: Seq<Vec<usize>>, g2: Seq<Vec<usize>>, oset: Seq<bool>) -> bool {
    &&& g2.len() == g.len()
    &&& forall|v: int| 0 <= v < g.len() && !oset[v] ==> (#[trigger] g2[v])@ == g[v]@
}

/// The odd-neighbourhood test read through the other end of each edge.
proof fn lemma_odd_by_symmetry(g: Seq<Vec<usize>>, s: Seq<bool>, v: int)
    requires
        graph_wf(g),
        graph_simple(g),
        g.len() <= usize::MAX,
        s.len() == g.len(),
        0 <= v < g.len(),
    ensures
        in_odd(g, s, v) == psum(|c: int| adj(g, c, v) && s[c], g.len() as int),
{
    let n = g.len();
    let ids = Seq::new(n, |i: int| i as usize);
    lemma_dot_is_odd(g, v, ids, s);
    assert(selected(ids, s, n) =~= s) by {
        assert forall|w: int| 0 <= w < n implies selected(ids, s, n)[w] == s[w] by {
            if s[w] {
                assert(ids[w] == w as usize);
            }
        }
    }
    lemma_psum_ext(|c: int| adj(g, v, ids[c] as int) && s[c], |c: int| adj(g, c, v) && s[c], n as int);
}

/// A Pauli flow of `g` whose outputs sit at layer 0 stays a Pauli flow when
/// edges between outputs are added or removed.
pub proof fn lemma_output_edges_keep_flow(
    f: Seq<Option<Vec<usize>>>,
    layer: Seq<usize>,
    g: Seq<Vec<usize>>,
    g2: Seq<Vec<usize>>,
    oset: Seq<bool>,
    pplane: Seq<Option<PPlane>>,
)
    requires
        graph_wf(g),
        graph_simple(g),
        graph_wf(g2),
        graph_simple(g2),
        g.len() <= usize::MAX,
        same_off_outputs(g, g2, oset),
        oset.len() == g.len(),
        pplane.len() == g.len(),
        forall|v: int| 0 <= v < g.len() ==> (#[trigger] pplane[v]).is_some() == !oset[v],
        initial_ok(layer, oset),
        flow_in_range(f, g.len()),
        pflow_def(f, layer, g, pplane),
    ensures
        pflow_def(f, layer, g2, pplane),
{
    let n = g.len();
    assert forall|u: int| 0 <= u < n && (#[trigger] f[u]).is_some() implies vertex_ok(
        g2,
        layer,
        pplane,
        u,
        mask_of(f[u]->0@, n),
    ) by {
        let s = mask_of(f[u]->0@, n);
        assert(vertex_ok(g, layer, pplane, u, s));
        assert(g2[u]@ == g[u]@);
        assert forall|v: int| 0 <= v < n implies #[trigger] later_ok(g2, layer, pplane, u, s, v) by {
            assert(later_ok(g, layer, pplane, u, s, v));
            if !oset[v] {
                assert(g2[v]@ == g[v]@);
            } else if v != u && layer[u] <= layer[v] {
                assert(layer[v] == 0);
                assert forall|c: int| 0 <= c < n && #[trigger] s[c] implies !oset[c] by {
                    if oset[c] {
                        assert(c != u);
                        assert(layer[c] == 0);
                        assert(later_ok(g, layer, pplane, u, s, c));
                    }
                }
                lemma_odd_by_symmetry(g, s, v);
                lemma_odd_by_symmetry(g2, s, v);
                assert forall|c: int| 0 <= c < n implies (adj(g, c, v) && s[c]) == (adj(g2, c, v)
                    && s[c]) by {
                    if s[c] {
                        assert(g2[c]@ == g[c]@);
                    }
                }
                lemma_psum_ext(|c: int| adj(g, c, v) && s[c], |c: int| adj(g2, c, v) && s[c], n as int);
            }
        }
    }
}

/// On any layer, the systems built for a waiting non-output vertex are the
/// same in `g` and in `g2` when the two differ only by edges between outputs.
proof fn lemma_output_edges_keep_blocked(
    g: Seq<Vec<usize>>,
    g2: Seq<Vec<usize>>,
    iset: Seq<bool>,
    oset: Seq<bool>,
    pplane: Seq<Option<PPlane>>,
    pend: Seq<bool>,
    l: int,
    u: int,
)
    requires
        graph_wf(g),
        graph_simple(g),
        graph_wf(g2),
        graph_simple(g2),
        g.len() <= usize::MAX,
        same_off_outputs(g, g2, oset),
        oset.len() == g.len(),
        pend.len() == g.len(),
        forall|v: int| 0 <= v < g.len() && #[trigger] pend[v] ==> !oset[v],
        forall|v: int|
            0 <= v < g.len() && plane_in(#[trigger] pplane[v], PPlane::X, PPlane::Y) ==> !oset[v],
        0 <= u < g.len(),
        pend[u],
    ensures
        forall|b: BranchKind|
            #[trigger] branch_system(
                g,
                b,
                u,
                members(upper_at(pend, pplane, oset, l).update(u, true)),
                members(frontier_lower(pend, pplane).update(u, false)),
                members(cols_at(pend, pplane, iset, l).update(u, false)),
            ) == branch_system(
                g2,
                b,
                u,
                members(upper_at(pend, pplane, oset, l).update(u, true)),
                members(frontier_lower(pend, pplane).update(u, false)),
                members(cols_at(pend, pplane, iset, l).update(u, false)),
            ),
        blocked(
            g,
            pplane,
            upper_at(pend, pplane, oset, l),
            frontier_lower(pend, pplane),
            cols_at(pend, pplane, iset, l),
            u,
        ) == blocked(
            g2,
            pplane,
            upper_at(pend, pplane, oset, l),
            frontier_lower(pend, pplane),
            cols_at(pend, pplane, iset, l),
            u,
        ),
{
    let n = g.len();
    let up = upper_at(pend, pplane, oset, l);
    let lo = frontier_lower(pend, pplane);
    let co = cols_at(pend, pplane, iset, l);
    let rows_u = members(up.update(u, true));
    let rows_l = members(lo.update(u, false));
    let cols = members(co.update(u, false));
    lemma_members_in(up.update(u, true), n as int);
    lemma_members_in(lo.update(u, false), n as int);
    lemma_members_in(co.update(u, false), n as int);
    assert(g2[u]@ == g[u]@);
    assert forall|b: BranchKind| #[trigger] branch_system(g, b, u, rows_u, rows_l, cols)
        == branch_system(g2, b, u, rows_u, rows_l, cols) by {
        let m1 = branch_system(g, b, u, rows_u, rows_l, cols);
        let m2 = branch_system(g2, b, u, rows_u, rows_l, cols);
        assert forall|r: int| 0 <= r < m1.len() implies #[trigger] m1[r] == m2[r] by {
            if r < rows_u.len() {
                let v = rows_u[r] as int;
                if oset[v] {
                    assert forall|c: int| 0 <= c < cols.len() implies adj(g, v, cols[c] as int)
                        == adj(g2, v, cols[c] as int) by {
                        let w = cols[c] as int;
                        assert(l == 0);
                        assert(!oset[w]);
                        assert(g2[w]@ == g[w]@);
                        assert(adj(g, v, w) == adj(g, w, v));
                        assert(adj(g2, v, w) == adj(g2, w, v));
                    }
                } else {
                    assert(g2[v]@ == g[v]@);
                }
                assert(m1[r] =~= m2[r]);
            } else {
                let v = rows_l[r - rows_u.len()] as int;
                assert(g2[v]@ == g[v]@);
                assert(m1[r] =~= m2[r]);
            }
        }
        assert(m1 =~= m2);
    }
    if blocked(g, pplane, up, lo, co, u) && !(rows_u.len() + rows_l.len() == 0 || cols.len() == 0) {
        assert forall|b: BranchKind| eligible(pplane[u]->0, b) implies !#[trigger] solvable(
            branch_system(g2, b, u, rows_u, rows_l, cols),
            cols.len() as int,
        ) by {
            assert(branch_system(g, b, u, rows_u, rows_l, cols) == branch_system(g2, b, u, rows_u, rows_l, cols));
        }
    }
    if blocked(g2, pplane, up, lo, co, u) && !(rows_u.len() + rows_l.len() == 0 || cols.len() == 0) {
        assert forall|b: BranchKind| eligible(pplane[u]->0, b) implies !#[trigger] solvable(
            branch_system(g, b, u, rows_u, rows_l, cols),
            cols.len() as int,
        ) by {
            assert(branch_system(g, b, u, rows_u, rows_l, cols) == branch_system(g2, b, u, rows_u, rows_l, cols));
        }
    }
}

proof fn lemma_output_edges_keep_search(
    g: Seq<Vec<usize>>,
    g2: Seq<Vec<usize>>,
    iset: Seq<bool>,
    oset: Seq<bool>,
    pplane: Seq<Option<PPlane>>,
    pend: Seq<bool>,
    l: int,
    fuel: nat,
)
    requires
        graph_wf(g),
        graph_simple(g),
        graph_wf(g2),
        graph_simple(g2),
        g.len() <= usize::MAX,
        same_off_outputs(g, g2, oset),
        oset.len() == g.len(),
        pend.len() == g.len(),
        forall|v: int| 0 <= v < g.len() && #[trigger] pend[v] ==> !oset[v],
        forall|v: int|
            0 <= v < g.len() && plane_in(#[trigger] pplane[v], PPlane::X, PPlane::Y) ==> !oset[v],
    ensures
        search_ok(g, iset, oset, pplane, pend, l, fuel) == search_ok(
            g2,
            iset,
            oset,
            pplane,
            pend,
            l,
            fuel,
        ),
    decreases fuel,
{
    let n = g.len();
    let next = step(g, iset, oset, pplane, pend, l);
    let next2 = step(g2, iset, oset, pplane, pend, l);
    assert forall|v: int| 0 <= v < n implies #[trigger] next[v] == next2[v] by {
        if pend[v] {
            lemma_output_edges_keep_blocked(g, g2, iset, oset, pplane, pend, l, v);
        }
    }
    assert(next =~= next2);
    if fuel > 0 {
        lemma_output_edges_keep_search(g, g2, iset, oset, pplane, next, l + 1, (fuel - 1) as nat);
    }
}

proof fn lemma_output_edges_keep_waiting(
    g: Seq<Vec<usize>>,
    g2: Seq<Vec<usize>>,
    iset: Seq<bool>,
    oset: Seq<bool>,
    pplane: Seq<Option<PPlane>>,
    k: nat,
)
    requires
        graph_wf(g),
        graph_simple(g),
        graph_wf(g2),
        graph_simple(g2),
        g.len() <= usize::MAX,
        same_off_outputs(g, g2, oset),
        oset.len() == g.len(),
        forall|v: int|
            0 <= v < g.len() && plane_in(#[trigger] pplane[v], PPlane::X, PPlane::Y) ==> !oset[v],
    ensures
        waiting(g, iset, oset, pplane, k) == waiting(g2, iset, oset, pplane, k),
    decreases k,
{
    if k > 0 {
        let j = (k - 1) as nat;
        lemma_output_edges_keep_waiting(g, g2, iset, oset, pplane, j);
        lemma_waiting_shrinks(g, iset, oset, pplane, j, j);
        let pend = waiting(g, iset, oset, pplane, j);
        let n1 = step(g, iset, oset, pplane, pend, j as int);
        let n2 = step(g2, iset, oset, pplane, pend, j as int);
        assert forall|v: int| 0 <= v < g.len() implies #[trigger] n1[v] == n2[v] by {
            if pend[v] {
                lemma_output_edges_keep_blocked(g, g2, iset, oset, pplane, pend, j as int, v);
            }
        }
        assert(n1 =~= n2);
    }
}

/// Adding or removing edges between outputs changes neither whether the
/// Pauli search corrects every vertex nor whether an input would need itself,
/// so, by the contract of `find`, it does not change whether `find` succeeds.
pub proof fn lemma_output_edges_keep_verdict(
    g: Seq<Vec<usize>>,
    g2: Seq<Vec<usize>>,
    iset: Seq<usize>,
    oset: Seq<usize>,
    pplane: Seq<Option<u8>>,
)
    requires
        find_inputs_ok(g, iset, oset, pplane),
        find_inputs_ok(g2, iset, oset, pplane),
        same_off_outputs(g, g2, mask_of(oset, g.len())),
    ensures
        pflow_search_ok(g, iset, oset, pplane) == pflow_search_ok(g2, iset, oset, pplane),
        input_needs_itself(g, mask_of(iset, g.len()), mask_of(oset, g.len()), planes_of(pplane))
            == input_needs_itself(g2, mask_of(iset, g.len()), mask_of(oset, g.len()), planes_of(pplane)),
{
    let n = g.len();
    let omask = mask_of(oset, n);
    let pp = planes_of(pplane);
    let start = Seq::new(n, |v: int| !omask[v]);
    assert forall|v: int| 0 <= v < n && plane_in(#[trigger] pp[v], PPlane::X, PPlane::Y) implies !omask[v] by {
        assert(pplane[v].is_some() == !oset.contains(v as usize));
    }
    lemma_output_edges_keep_search(g, g2, mask_of(iset, n), omask, pp, start, 0, (n + 1) as nat);
    let im = mask_of(iset, n);
    assert forall|u: int, k: nat|
        0 <= u < n && #[trigger] waiting(g, im, omask, pp, k)[u] implies layer_system(
            g,
            im,
            omask,
            pp,
            k,
            u,
            BranchKind::XY,
        ) == layer_system(g2, im, omask, pp, k, u, BranchKind::XY) && layer_cols(g, im, omask, pp, k, u)
        == layer_cols(g2, im, omask, pp, k, u) by {
        lemma_output_edges_keep_waiting(g, g2, im, omask, pp, k);
        lemma_waiting_shrinks(g, im, omask, pp, k, k);
        let pend = waiting(g, im, omask, pp, k);
        lemma_output_edges_keep_blocked(g, g2, im, omask, pp, pend, k as int, u);
    }
    if input_needs_itself(g, im, omask, pp) {
        let (u, k) = choose|u: int, k: nat|
            0 <= u < n && im[u] && #[trigger] waiting(g, im, omask, pp, k)[u]
                && !waiting(g, im, omask, pp, k + 1)[u] && !(eligible(pp[u]->0, BranchKind::XY)
                && solvable(
                layer_system(g, im, omask, pp, k, u, BranchKind::XY),
                layer_cols(g, im, omask, pp, k, u).len() as int,
            ));
        lemma_output_edges_keep_waiting(g, g2, im, omask, pp, k);
        lemma_output_edges_keep_waiting(g, g2, im, omask, pp, k + 1);
        assert(waiting(g2, im, omask, pp, k)[u]);
    }
    if input_needs_itself(g2, im, omask, pp) {
        let (u, k) = choose|u: int, k: nat|
            0 <= u < n && im[u] && #[trigger] waiting(g2, im, omask, pp, k)[u]
                && !waiting(g2, im, omask, pp, k + 1)[u] && !(eligible(pp[u]->0, BranchKind::XY)
                && solvable(
                layer_system(g2, im, omask, pp, k, u, BranchKind::XY),
                layer_cols(g2, im, omask, pp, k, u).len() as int,
            ));
        lemma_output_edges_keep_waiting(g, g2, im, omask, pp, k);
        lemma_output_edges_keep_waiting(g, g2, im, omask, pp, k + 1);
        assert(waiting(g, im, omask, pp, k)[u]);
    }
}

/// Fewer rows and more candidates keep a vertex unblocked.
proof fn lemma_blocked_shrinks(
    g: Seq<Vec<usize>>,
    pplane: Seq<Option<PPlane>>,
    up1: Seq<bool>,
    lo1: Seq<bool>,
    co1: Seq<bool>,
    up2: Seq<bool>,
    lo2: Seq<bool>,
    co2: Seq<bool>,
    u: int,
)
    requires
        graph_wf(g),
        graph_simple(g),
        g.len() <= usize::MAX,
        up1.len() == g.len(),
        lo1.len() == g.len(),
        co1.len() == g.len(),
        up2.len() == g.len(),
        lo2.len() == g.len(),
        co2.len() == g.len(),
        0 <= u < g.len(),
        forall|v: int| 0 <= v < g.len() && #[trigger] up2[v] ==> up1[v],
        forall|v: int| 0 <= v < g.len() && #[trigger] lo2[v] ==> lo1[v],
        forall|v: int| 0 <= v < g.len() && #[trigger] co1[v] ==> co2[v],
    ensures
        blocked(g, pplane, up2, lo2, co2, u) ==> blocked(g, pplane, up1, lo1, co1, u),
{
    let n = g.len();
    let mu1 = up1.update(u, true);
    let ml1 = lo1.update(u, false);
    let mc1 = co1.update(u, false);
    let mu2 = up2.update(u, true);
    let ml2 = lo2.update(u, false);
    let mc2 = co2.update(u, false);
    let rows_u1 = members(mu1);
    let rows_l1 = members(ml1);
    let cols1 = members(mc1);
    let rows_u2 = members(mu2);
    let rows_l2 = members(ml2);
    let cols2 = members(mc2);
    lemma_members_in(mu1, n as int);
    lemma_members_in(ml1, n as int);
    lemma_members_in(mc1, n as int);
    lemma_members_in(mu2, n as int);
    lemma_members_in(ml2, n as int);
    lemma_members_in(mc2, n as int);
    lemma_members_sorted_complete(mu1, n as int);
    lemma_members_sorted_complete(ml1, n as int);
    lemma_members_sorted_complete(mc1, n as int);
    lemma_members_sorted_complete(mu2, n as int);
    lemma_members_sorted_complete(ml2, n as int);
    lemma_members_sorted_complete(mc2, n as int);
    if !blocked(g, pplane, up1, lo1, co1, u) {
        let b = choose|b: BranchKind|
            eligible(pplane[u]->0, b) && solvable(
                branch_system(g, b, u, rows_u1, rows_l1, cols1),
                cols1.len() as int,
            );
        let x1 = choose|x: Seq<bool>|
            x.len() == cols1.len() && #[trigger] system_holds(
                branch_system(g, b, u, rows_u1, rows_l1, cols1),
                x,
                cols1.len() as int,
            );
        lemma_system_by_selection(g, b, u, rows_u1, rows_l1, cols1, x1);
        let sel = selected(cols1, x1, n);
        let x2 = Seq::new(cols2.len(), |c: int| sel[cols2[c] as int]);
        assert forall|w: int| 0 <= w < n implies #[trigger] selected(cols2, x2, n)[w] == sel[w] by {
            if sel[w] {
                let c1 = choose|c1: int| 0 <= c1 < cols1.len() && x1[c1] && cols1[c1] == w as usize;
                assert(mc1[cols1[c1] as int]);
                assert(mc2[w]);
                assert(cols2.contains(w as usize));
                let c2 = choose|c2: int| 0 <= c2 < cols2.len() && cols2[c2] == w as usize;
                assert(x2[c2]);
            }
            if selected(cols2, x2, n)[w] {
                let c2 = choose|c2: int| 0 <= c2 < cols2.len() && x2[c2] && cols2[c2] == w as usize;
                assert(sel[cols2[c2] as int]);
            }
        }
        assert(selected(cols2, x2, n) =~= sel);
        assert forall|r: int| 0 <= r < rows_u2.len() implies in_odd(g, sel, #[trigger] rows_u2[r] as int)
            == upper_rhs(g, b, u, rows_u2[r] as int) by {
            let v = rows_u2[r];
            assert(mu2[v as int]);
            let vi = v as int;
            assert(mu1[vi]);
            assert(members_below(mu1, n as int).contains(vi as usize));
            assert(rows_u1.contains(v));
            let r1 = choose|r1: int| 0 <= r1 < rows_u1.len() && rows_u1[r1] == v;
            assert(in_odd(g, sel, rows_u1[r1] as int) == upper_rhs(g, b, u, rows_u1[r1] as int));
        }
        assert forall|r: int| 0 <= r < rows_l2.len() implies (in_odd(g, sel, #[trigger] rows_l2[r] as int)
            != sel[rows_l2[r] as int]) == lower_rhs(g, b, u, rows_l2[r] as int) by {
            let v = rows_l2[r];
            assert(ml2[v as int]);
            let vi = v as int;
            assert(ml1[vi]);
            assert(members_below(ml1, n as int).contains(vi as usize));
            assert(rows_l1.contains(v));
            let r1 = choose|r1: int| 0 <= r1 < rows_l1.len() && rows_l1[r1] == v;
            assert((in_odd(g, sel, rows_l1[r1] as int) != sel[rows_l1[r1] as int]) == lower_rhs(
                g,
                b,
                u,
                rows_l1[r1] as int,
            ));
        }
        assert(sel_eqs(g, b, u, rows_u2, rows_l2, sel));
        lemma_system_by_selection(g, b, u, rows_u2, rows_l2, cols2, x2);
        assert(system_holds(branch_system(g, b, u, rows_u2, rows_l2, cols2), x2, cols2.len() as int));
        assert(rows_u2.contains(u as usize));
        assert(solvable(branch_system(g, b, u, rows_u2, rows_l2, cols2), cols2.len() as int));
        assert(cols1.len() > 0);
        let wi = cols1[0] as int;
        assert(mc1[wi]);
        assert(mc2[wi]);
        assert(members_below(mc2, n as int).contains(wi as usize));
        assert(cols2.len() > 0);
        let ui = u;
        assert(members_below(mu2, n as int).contains(ui as usize));
        assert(rows_u2.len() > 0);
    }
}

/// The input mask of a search without inputs.
pub open spec fn no_inputs(n: nat) -> Seq<bool> {
    Seq::new(n, |v: int| false)
}

/// Without inputs, from a smaller waiting set, a layer leaves fewer vertices
/// waiting.
proof fn lemma_step_fewer_inputs(
    g: Seq<Vec<usize>>,
    iset: Seq<bool>,
    oset: Seq<bool>,
    pplane: Seq<Option<PPlane>>,
    more: Seq<bool>,
    fewer: Seq<bool>,
    l: int,
)
    requires
        graph_wf(g),
        graph_simple(g),
        g.len() <= usize::MAX,
        iset.len() == g.len(),
        oset.len() == g.len(),
        pplane.len() == g.len(),
        more.len() == g.len(),
        fewer.len() == g.len(),
        forall|v: int| 0 <= v < g.len() && #[trigger] fewer[v] ==> more[v],
    ensures
        forall|v: int|
            0 <= v < g.len() && #[trigger] step(g, no_inputs(g.len()), oset, pplane, fewer, l)[v] ==> step(
                g,
                iset,
                oset,
                pplane,
                more,
                l,
            )[v],
{
    let n = g.len();
    let none = no_inputs(n);
    let up1 = upper_at(more, pplane, oset, l);
    let lo1 = frontier_lower(more, pplane);
    let co1 = cols_at(more, pplane, iset, l);
    let up2 = upper_at(fewer, pplane, oset, l);
    let lo2 = frontier_lower(fewer, pplane);
    let co2 = cols_at(fewer, pplane, none, l);
    assert forall|v: int| 0 <= v < n && #[trigger] step(g, none, oset, pplane, fewer, l)[v] implies step(
        g,
        iset,
        oset,
        pplane,
        more,
        l,
    )[v] by {
        lemma_blocked_shrinks(g, pplane, up1, lo1, co1, up2, lo2, co2, v);
    }
}

/// A search whose waiting set holds a set that stays stuck on every later
/// layer cannot succeed.
proof fn lemma_stall_blocks(
    g: Seq<Vec<usize>>,
    iset: Seq<bool>,
    oset: Seq<bool>,
    pplane: Seq<Option<PPlane>>,
    more: Seq<bool>,
    fewer: Seq<bool>,
    l: int,
    fuel: nat,
)
    requires
        graph_wf(g),
        graph_simple(g),
        g.len() <= usize::MAX,
        iset.len() == g.len(),
        oset.len() == g.len(),
        pplane.len() == g.len(),
        more.len() == g.len(),
        fewer.len() == g.len(),
        l > 0,
        exists|v: int| 0 <= v < g.len() && #[trigger] fewer[v],
        forall|v: int| 0 <= v < g.len() && #[trigger] fewer[v] ==> more[v],
        step(g, no_inputs(g.len()), oset, pplane, fewer, l) == fewer,
    ensures
        !search_ok(g, iset, oset, pplane, more, l, fuel),
    decreases fuel,
{
    let n = g.len();
    let none = no_inputs(n);
    let v0 = choose|v: int| 0 <= v < n && #[trigger] fewer[v];
    assert(more[v0]);
    if fuel > 0 {
        let next = step(g, iset, oset, pplane, more, l);
        lemma_step_fewer_inputs(g, iset, oset, pplane, more, fewer, l);
        assert forall|v: int| 0 <= v < n && #[trigger] fewer[v] implies next[v] by {
            assert(step(g, none, oset, pplane, fewer, l)[v]);
        }
        assert(upper_at(fewer, pplane, oset, l + 1) =~= upper_at(fewer, pplane, oset, l));
        assert(cols_at(fewer, pplane, none, l + 1) =~= cols_at(fewer, pplane, none, l));
        assert(step(g, none, oset, pplane, fewer, l + 1) =~= step(g, none, oset, pplane, fewer, l));
        lemma_stall_blocks(g, iset, oset, pplane, next, fewer, l + 1, (fuel - 1) as nat);
    }
}

/// A search without inputs succeeds from any smaller waiting set when the
/// search with inputs succeeds.
proof fn lemma_search_fewer_inputs(
    g: Seq<Vec<usize>>,
    iset: Seq<bool>,
    oset: Seq<bool>,
    pplane: Seq<Option<PPlane>>,
    more: Seq<bool>,
    fewer: Seq<bool>,
    l: int,
    fuel: nat,
)
    requires
        graph_wf(g),
        graph_simple(g),
        g.len() <= usize::MAX,
        iset.len() == g.len(),
        oset.len() == g.len(),
        pplane.len() == g.len(),
        more.len() == g.len(),
        fewer.len() == g.len(),
        l >= 0,
        forall|v: int| 0 <= v < g.len() && #[trigger] fewer[v] ==> more[v],
        search_ok(g, iset, oset, pplane, more, l, fuel),
    ensures
        search_ok(g, no_inputs(g.len()), oset, pplane, fewer, l, fuel),
    decreases fuel,
{
    let n = g.len();
    let none = no_inputs(n);
    if exists|v: int| 0 <= v < n && #[trigger] fewer[v] {
        let v0 = choose|v: int| 0 <= v < n && #[trigger] fewer[v];
        assert(more[v0]);
        assert(fuel > 0);
        let next1 = step(g, iset, oset, pplane, more, l);
        let next2 = step(g, none, oset, pplane, fewer, l);
        lemma_step_fewer_inputs(g, iset, oset, pplane, more, fewer, l);
        if l > 0 && next2 == fewer {
            assert(upper_at(fewer, pplane, oset, l + 1) =~= upper_at(fewer, pplane, oset, l));
            assert(cols_at(fewer, pplane, none, l + 1) =~= cols_at(fewer, pplane, none, l));
            assert(step(g, none, oset, pplane, fewer, l + 1) =~= step(g, none, oset, pplane, fewer, l));
            assert forall|v: int| 0 <= v < n && #[trigger] fewer[v] implies next1[v] by {
                assert(next2[v]);
            }
            lemma_stall_blocks(g, iset, oset, pplane, next1, fewer, l + 1, (fuel - 1) as nat);
        } else {
            assert forall|v: int| 0 <= v < n && #[trigger] next2[v] implies next1[v] by {
            }
            lemma_search_fewer_inputs(g, iset, oset, pplane, next1, next2, l + 1, (fuel - 1) as nat);
        }
    }
}

/// Dropping every input keeps a successful Pauli search successful, and
/// without inputs no input can need itself: by the contract of `find`, when
/// `find` succeeds on `(g, iset, oset)`, it succeeds on `(g, [], oset)` too.
pub proof fn lemma_no_inputs_keeps_success(
    g: Seq<Vec<usize>>,
    iset: Seq<usize>,
    oset: Seq<usize>,
    pplane: Seq<Option<u8>>,
)
    requires
        find_inputs_ok(g, iset, oset, pplane),
        pflow_search_ok(g, iset, oset, pplane),
    ensures
        find_inputs_ok(g, Seq::empty(), oset, pplane),
        pflow_search_ok(g, Seq::empty(), oset, pplane),
        !input_needs_itself(
            g,
            mask_of(Seq::empty(), g.len()),
            mask_of(oset, g.len()),
            planes_of(pplane),
        ),
{
    let n = g.len();
    let omask = mask_of(oset, n);
    let start = Seq::new(n, |v: int| !omask[v]);
    assert(mask_of(Seq::<usize>::empty(), n) =~= no_inputs(n));
    lemma_search_fewer_inputs(g, mask_of(iset, n), omask, planes_of(pplane), start, start, 0, (n + 1) as nat);
}

} // verus!
