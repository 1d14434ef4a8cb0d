//! Maximally-delayed generalized flow: every non-output is measured in the XY
//! plane, so the Pauli search runs with that plane on each of them.
use crate::common::{graph_simple, graph_wf, in_odd, in_range, mask_of, to_mask, Graph, Layer};
use crate::plane::{later_ok, pflow_def, plane_of_tag, vertex_ok, PPlane};
use crate::pflow::{
    found_ok, input_needs_itself, lemma_accepted_has_branch, pflow_search_ok, planes_of, stalled,
    waiting,
};
use crate::work::{eligible, BranchKind};
use vstd::prelude::*;

verus! {

/// `(f, layer)` is a generalized flow: for each non-output `u`, `u` is in
/// `Odd(f(u))` but not in `f(u)`, and every other vertex of `f(u)` or of
/// `Odd(f(u))` sits in a strictly lower layer than `u`.
pub open spec fn gflow_def(
    f: Seq<Option<Vec<usize>>>,
    layer: Seq<usize>,
    g: Seq<Vec<usize>>,
    oset: Seq<bool>,
) -> bool {
    &&& forall|u: int| 0 <= u < g.len() ==> (#[trigger] f[u]).is_some() == !oset[u]
    &&& forall|u: int|
        0 <= u < g.len() && (#[trigger] f[u]).is_some() ==> {
            let s = mask_of(f[u]->0@, g.len());
            &&& !s[u]
            &&& in_odd(g, s, u)
            &&& forall|v: int|
                0 <= v < g.len() && v != u && (s[v] || in_odd(g, s, v)) ==> #[trigger] layer[v]
                    < layer[u]
        }
}

/// The tag of the XY plane on every vertex off `oset`.
pub open spec fn xy_tags(n: nat, oset: Seq<usize>) -> Seq<Option<u8>> {
    Seq::new(n, |u: int| if oset.contains(u as usize) { None } else { Some(0u8) })
}

/// A Pauli flow in which every non-output is measured in XY is a generalized flow.
pub proof fn lemma_xy_pauli_flow_is_gflow(
    f: Seq<Option<Vec<usize>>>,
    layer: Seq<usize>,
    g: Seq<Vec<usize>>,
    oset: Seq<usize>,
)
    requires
        layer.len() == g.len(),
        pflow_def(f, layer, g, planes_of(xy_tags(g.len(), oset))),
    ensures
        gflow_def(f, layer, g, mask_of(oset, g.len())),
{
    let n = g.len();
    let pp = planes_of(xy_tags(n, oset));
    assert forall|u: int| 0 <= u < n implies (#[trigger] f[u]).is_some() == !mask_of(oset, n)[u] by {
        assert(pp[u].is_some() == f[u].is_some());
    }
    assert forall|u: int| 0 <= u < n && (#[trigger] f[u]).is_some() implies ({
        let s = mask_of(f[u]->0@, n);
        &&& !s[u]
        &&& in_odd(g, s, u)
        &&& forall|v: int|
            0 <= v < n && v != u && (s[v] || in_odd(g, s, v)) ==> #[trigger] layer[v] < layer[u]
    }) by {
        let s = mask_of(f[u]->0@, n);
        assert(vertex_ok(g, layer, pp, u, s));
        assert(pp[u] == Some(PPlane::XY));
        assert forall|v: int| 0 <= v < n && v != u && (s[v] || in_odd(g, s, v)) implies #[trigger] layer[v]
            < layer[u] by {
            assert(later_ok(g, layer, pp, u, s, v));
            assert(pp[v] == Some(PPlane::XY) || pp[v].is_none());
        }
    }
}

/// Searches a maximally-delayed generalized flow of the open graph
/// `(g, iset, oset)`.
pub fn find(g: Graph, iset: Vec<usize>, oset: Vec<usize>) -> (r: Option<
    (Vec<Option<Vec<usize>>>, Layer),
>)
    requires
        graph_wf(g@),
        graph_simple(g@),
        g@.len() < usize::MAX / 2,
        in_range(iset@, g@.len()),
        in_range(oset@, g@.len()),
    ensures
        r matches Some((f, layer)) ==> gflow_def(f@, layer@, g@, mask_of(oset@, g@.len()))
            && found_ok(f@, layer@, g@, iset@, oset@, xy_tags(g@.len(), oset@)),
        r is None ==> exists|pend: Seq<bool>|
            #[trigger] stalled(
                g@,
                mask_of(iset@, g@.len()),
                mask_of(oset@, g@.len()),
                planes_of(xy_tags(g@.len(), oset@)),
                pend,
            ),
        r.is_some() == pflow_search_ok(g@, iset@, oset@, xy_tags(g@.len(), oset@)),
{
    let n = g.len();
    let omask = to_mask(&oset, n);
    let mut tags: Vec<Option<u8>> = Vec::new();
    let mut v: usize = 0;
    while v < n
        invariant
            v <= n,
            n == g@.len(),
            omask@ == mask_of(oset@, n as nat),
            tags@ == xy_tags(n as nat, oset@).subrange(0, v as int),
        decreases n - v,
    {
        if omask[v] {
            tags.push(None);
        } else {
            tags.push(Some(0u8));
        }
        assert(tags@ =~= xy_tags(n as nat, oset@).subrange(0, v + 1));
        v = v + 1;
    }
    assert(tags@ =~= xy_tags(n as nat, oset@));
    assert forall|u: int| 0 <= u < n && (#[trigger] tags@[u]).is_some() implies tags@[u]->0 < 6 by {
    }
    let ghost pp = planes_of(tags@);
    proof {
        let im = mask_of(iset@, n as nat);
        let om = mask_of(oset@, n as nat);
        assert(plane_of_tag(0u8) == Some(PPlane::XY));
        if input_needs_itself(g@, im, om, pp) {
            let (u2, k2) = choose|u2: int, k2: nat|
                0 <= u2 < n && im[u2] && #[trigger] waiting(g@, im, om, pp, k2)[u2]
                    && !waiting(g@, im, om, pp, k2 + 1)[u2] && !(eligible(pp[u2]->0, BranchKind::XY)
                    && crate::gf2_linalg::solvable(
                    crate::pflow::layer_system(g@, im, om, pp, k2, u2, BranchKind::XY),
                    crate::pflow::layer_cols(g@, im, om, pp, k2, u2).len() as int,
                ));
            crate::pflow::lemma_waiting_shrinks(g@, im, om, pp, 0, k2);
            assert(pp[u2] == Some(PPlane::XY));
            lemma_accepted_has_branch(g@, im, om, pp, k2, u2);
        }
    }
    let r = crate::pflow::find(g, iset, oset, tags);
    proof {
        if r.is_some() {
            let (f, layer) = r->0;
            lemma_xy_pauli_flow_is_gflow(f@, layer@, g@, oset@);
        }
    }
    r
}

} // verus!
