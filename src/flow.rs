//! Maximally-delayed causal flow, found by expanding backwards from the
//! outputs: a corrected non-input vertex with exactly one uncorrected
//! neighbour corrects that neighbour in the next layer.
use crate::common::{
    adj, count_below, difference_with, empty_mask, graph_simple, graph_wf, in_range, is_clear,
    lemma_count_full, lemma_count_shrinks, mask_of, to_mask, union_with_difference, Graph, Layer,
};
use vstd::prelude::*;

verus! {

/// `(f, layer)` is a causal flow: each non-output `u` is corrected by a
/// non-input neighbour `f(u)` in a lower layer, all of whose other neighbours
/// sit in a lower layer than `u` as well; outputs sit at layer 0.
pub open spec fn cflow_def(
    f: Seq<Option<usize>>,
    layer: Seq<usize>,
    g: Seq<Vec<usize>>,
    iset: Seq<bool>,
    oset: Seq<bool>,
) -> bool {
    &&& f.len() == g.len()
    &&& layer.len() == g.len()
    &&& forall|v: int| 0 <= v < g.len() && oset[v] ==> #[trigger] layer[v] == 0
    &&& forall|u: int| 0 <= u < g.len() ==> (#[trigger] f[u]).is_some() == !oset[u]
    &&& forall|u: int|
        0 <= u < g.len() && (#[trigger] f[u]).is_some() ==> {
            let v = f[u]->0 as int;
            &&& v < g.len()
            &&& !iset[v]
            &&& adj(g, u, v)
            &&& layer[v] < layer[u]
            &&& forall|w: int|
                0 <= w < g.len() && w != u && #[trigger] adj(g, v, w) ==> layer[w] < layer[u]
        }
}

/// `u` is the one neighbour of `v` outside `corr`.
pub open spec fn lone_pending(g: Seq<Vec<usize>>, corr: Seq<bool>, v: int, u: int) -> bool {
    &&& 0 <= u < g.len()
    &&& adj(g, v, u)
    &&& !corr[u]
    &&& forall|w: int| 0 <= w < g.len() && #[trigger] adj(g, v, w) && !corr[w] ==> w == u
}

/// `corr` holds the outputs and misses some vertex, and no non-input vertex of
/// `corr` has exactly one neighbour outside it: the expansion cannot go on.
pub open spec fn cflow_stalled(
    g: Seq<Vec<usize>>,
    iset: Seq<bool>,
    oset: Seq<bool>,
    corr: Seq<bool>,
) -> bool {
    &&& corr.len() == g.len()
    &&& forall|v: int| 0 <= v < g.len() && #[trigger] oset[v] ==> corr[v]
    &&& exists|v: int| 0 <= v < g.len() && !#[trigger] corr[v]
    &&& forall|v: int, u: int|
        0 <= v < g.len() && #[trigger] corr[v] && !iset[v] ==> !#[trigger] lone_pending(
            g,
            corr,
            v,
            u,
        )
}

/// `corr` with the vertices it corrects next: each the one neighbour outside
/// `corr` of a non-input vertex of `corr`.
pub open spec fn cflow_next(g: Seq<Vec<usize>>, iset: Seq<bool>, corr: Seq<bool>) -> Seq<bool> {
    Seq::new(
        corr.len(),
        |u: int|
            corr[u] || exists|v: int|
                0 <= v < corr.len() && corr[v] && !iset[v] && #[trigger] lone_pending(g, corr, v, u),
    )
}

/// The corrected vertices when layer `k` (counted from 1) starts.
pub open spec fn cflow_corrected(g: Seq<Vec<usize>>, iset: Seq<bool>, oset: Seq<bool>, k: nat) -> Seq<bool>
    decreases k,
{
    if k <= 1 {
        oset
    } else {
        cflow_next(g, iset, cflow_corrected(g, iset, oset, (k - 1) as nat))
    }
}

/// Each non-output sits at the layer on which the expansion first corrects it.
pub open spec fn cflow_layered(
    f: Seq<Option<usize>>,
    layer: Seq<usize>,
    g: Seq<Vec<usize>>,
    iset: Seq<bool>,
    oset: Seq<bool>,
) -> bool {
    forall|u: int|
        0 <= u < g.len() && (#[trigger] f[u]).is_some() ==> !cflow_corrected(
            g,
            iset,
            oset,
            layer[u] as nat,
        )[u] && cflow_corrected(g, iset, oset, (layer[u] + 1) as nat)[u]
}

/// The one neighbour of `v` outside `corr`, if there is exactly one.
pub fn lone_uncorrected(g: &Graph, corr: &Vec<bool>, v: usize) -> (r: Option<usize>)
    requires
        graph_wf(g@),
        v < g@.len(),
        g@.len() <= usize::MAX,
        corr@.len() == g@.len(),
    ensures
        r matches Some(u) ==> lone_pending(g@, corr@, v as int, u as int),
        r is None ==> forall|u: int| !#[trigger] lone_pending(g@, corr@, v as int, u),
{
    let nb = &g[v];
    let mut found: Option<usize> = None;
    let mut k: usize = 0;
    while k < nb.len()
        invariant
            graph_wf(g@),
            v < g@.len(),
            g@.len() <= usize::MAX,
            corr@.len() == g@.len(),
            nb == g@[v as int],
            k <= nb@.len(),
            found is None ==> forall|k2: int| 0 <= k2 < k ==> corr@[#[trigger] nb@[k2] as int],
            found matches Some(u) ==> u < g@.len() && adj(g@, v as int, u as int) && !corr@[u as int]
                && forall|k2: int| 0 <= k2 < k && !corr@[#[trigger] nb@[k2] as int] ==> nb@[k2] == u,
        decreases nb@.len() - k,
    {
        let w = nb[k];
        assert(w < g@.len());
        if !corr[w] {
            match found {
                None => {
                    assert(nb@[k as int] == w);
                    found = Some(w);
                },
                Some(u) => {
                    if u != w {
                        assert(adj(g@, v as int, w as int)) by {
                            assert(nb@[k as int] == w);
                        }
                        assert forall|x: int| !#[trigger] lone_pending(g@, corr@, v as int, x) by {
                            if lone_pending(g@, corr@, v as int, x) {
                                assert(u as int == x);
                                assert(w as int == x);
                            }
                        }
                        return None;
                    }
                },
            }
        }
        k = k + 1;
    }
    assert(nb@ == g@[v as int]@);
    match found {
        None => {
            assert forall|x: int| !#[trigger] lone_pending(g@, corr@, v as int, x) by {
                if lone_pending(g@, corr@, v as int, x) {
                    let k2 = choose|k2: int| 0 <= k2 < nb@.len() && nb@[k2] == x as usize;
                    assert(nb@[k2] as int == x);
                    assert(corr@[nb@[k2] as int]);
                }
            }
            None
        },
        Some(u) => {
            assert forall|w: int| 0 <= w < g@.len() && #[trigger] adj(g@, v as int, w) && !corr@[w]
                implies w == u by {
                let k2 = choose|k2: int| 0 <= k2 < nb@.len() && nb@[k2] == w as usize;
                assert(nb@[k2] as int == w);
                assert(!corr@[nb@[k2] as int]);
            }
            Some(u)
        },
    }
}

/// The facts that a chosen correction `f(u) = v` keeps for good: `v` is a
/// corrected non-input neighbour of `u`, and `v` and all its other neighbours
/// are corrected and sit below `u`.
pub open spec fn correction_ok(
    g: Seq<Vec<usize>>,
    f: Seq<Option<usize>>,
    layer: Seq<usize>,
    iset: Seq<bool>,
    corr: Seq<bool>,
    u: int,
) -> bool {
    let v = f[u]->0 as int;
    &&& v < g.len()
    &&& !iset[v]
    &&& adj(g, u, v)
    &&& corr[v]
    &&& layer[v] < layer[u]
    &&& forall|w: int|
        0 <= w < g.len() && w != u && #[trigger] adj(g, v, w) ==> corr[w] && layer[w] < layer[u]
}

/// Searches a maximally-delayed causal flow of the open graph `(g, iset, oset)`.
pub fn find(g: Graph, iset: Vec<usize>, oset: Vec<usize>) -> (r: Option<(Vec<Option<usize>>, Layer)>)
    requires
        graph_wf(g@),
        graph_simple(g@),
        g@.len() < usize::MAX / 2,
        in_range(iset@, g@.len()),
        in_range(oset@, g@.len()),
    ensures
        r matches Some((f, layer)) ==> cflow_def(
            f@,
            layer@,
            g@,
            mask_of(iset@, g@.len()),
            mask_of(oset@, g@.len()),
        ) && cflow_layered(f@, layer@, g@, mask_of(iset@, g@.len()), mask_of(oset@, g@.len())),
        r is None ==> exists|corr: Seq<bool>|
            #[trigger] cflow_stalled(g@, mask_of(iset@, g@.len()), mask_of(oset@, g@.len()), corr),
{
    let n = g.len();
    let imask = to_mask(&iset, n);
    let omask = to_mask(&oset, n);
    let mut corr = to_mask(&oset, n);
    let mut front = to_mask(&oset, n);
    difference_with(&mut front, &imask);
    let mut used = empty_mask(n);
    let mut f: Vec<Option<usize>> = Vec::new();
    let mut layer: Vec<usize> = Vec::new();
    let mut i: usize = 0;
    while i < n
        invariant
            i <= n,
            f@ == Seq::new(i as nat, |x: int| None::<usize>),
            layer@ == Seq::new(i as nat, |x: int| 0usize),
        decreases n - i,
    {
        f.push(None);
        layer.push(0);
        i = i + 1;
    }
    let mut l: usize = 1;
    let mut stop = false;
    while l <= n && !stop
        invariant
            n == g@.len(),
            n < usize::MAX / 2,
            graph_wf(g@),
            graph_simple(g@),
            1 <= l <= n + 1,
            imask@ == mask_of(iset@, n as nat),
            omask@ == mask_of(oset@, n as nat),
            corr@.len() == n,
            front@.len() == n,
            used@.len() == n,
            f@.len() == n,
            layer@.len() == n,
            forall|v: int| 0 <= v < n ==> #[trigger] corr@[v] == (omask@[v] || f@[v].is_some()),
            forall|v: int| 0 <= v < n && (#[trigger] f@[v]).is_some() ==> !omask@[v],
            forall|v: int| 0 <= v < n && #[trigger] front@[v] ==> corr@[v] && !imask@[v],
            forall|v: int| 0 <= v < n && #[trigger] used@[v] ==> corr@[v] && !imask@[v],
            forall|v: int| 0 <= v < n && #[trigger] corr@[v] && !imask@[v] ==> front@[v] || used@[v],
            forall|v: int, w: int|
                0 <= v < n && 0 <= w < n && #[trigger] used@[v] && #[trigger] adj(g@, v, w)
                    ==> corr@[w],
            forall|v: int| 0 <= v < n && #[trigger] corr@[v] ==> layer@[v] < l,
            forall|v: int| 0 <= v < n && (#[trigger] f@[v]).is_none() ==> layer@[v] == 0,
            forall|u: int|
                0 <= u < n && (#[trigger] f@[u]).is_some() ==> correction_ok(
                    g@,
                    f@,
                    layer@,
                    imask@,
                    corr@,
                    u,
                ),
            !stop ==> count_below(corr@, n as int) + 1 >= l,
            stop ==> cflow_stalled(g@, imask@, omask@, corr@) || forall|v: int|
                0 <= v < n ==> #[trigger] corr@[v],
            corr@ == cflow_corrected(g@, imask@, omask@, l as nat),
            cflow_layered(f@, layer@, g@, imask@, omask@),
        decreases n + 1 - l, if stop {
            0int
        } else {
            1int
        },
    {
        let mut newm = empty_mask(n);
        let mut usedl = empty_mask(n);
        let mut v: usize = 0;
        while v < n
            invariant
                n == g@.len(),
                graph_wf(g@),
                graph_simple(g@),
                1 <= l <= n,
                v <= n,
                imask@.len() == n,
                omask@.len() == n,
                corr@.len() == n,
                front@.len() == n,
                newm@.len() == n,
                usedl@.len() == n,
                f@.len() == n,
                layer@.len() == n,
                forall|x: int| 0 <= x < n && #[trigger] front@[x] ==> corr@[x] && !imask@[x],
                forall|x: int| 0 <= x < n && #[trigger] corr@[x] ==> layer@[x] < l,
                forall|x: int|
                    0 <= x < n ==> #[trigger] newm@[x] == (!corr@[x] && f@[x].is_some()),
                forall|x: int| 0 <= x < n && #[trigger] newm@[x] ==> layer@[x] == l,
                forall|x: int|
                    0 <= x < n ==> (#[trigger] corr@[x]) == (omask@[x] || (f@[x].is_some()
                        && !newm@[x])),
                forall|x: int| 0 <= x < n && (#[trigger] f@[x]).is_some() ==> !omask@[x],
                forall|x: int| 0 <= x < n && (#[trigger] f@[x]).is_none() ==> layer@[x] == 0,
                forall|x: int| 0 <= x < n && #[trigger] usedl@[x] ==> front@[x],
                forall|x: int, w: int|
                    0 <= x < n && 0 <= w < n && #[trigger] usedl@[x] && #[trigger] adj(g@, x, w)
                        ==> corr@[w] || newm@[w],
                forall|u: int|
                    0 <= u < n && (#[trigger] f@[u]).is_some() ==> correction_ok(
                        g@,
                        f@,
                        layer@,
                        imask@,
                        corr@,
                        u,
                    ),
                corr@ == cflow_corrected(g@, imask@, omask@, l as nat),
                cflow_layered(f@, layer@, g@, imask@, omask@),
                used@.len() == n,
                forall|x: int, w: int|
                    0 <= x < n && 0 <= w < n && #[trigger] used@[x] && #[trigger] adj(g@, x, w)
                        ==> corr@[w],
                forall|x: int| 0 <= x < n && #[trigger] corr@[x] && !imask@[x] ==> front@[x] || used@[x],
                forall|x: int|
                    0 <= x < n && #[trigger] newm@[x] ==> exists|v2: int|
                        0 <= v2 < n && corr@[v2] && !imask@[v2] && #[trigger] lone_pending(g@, corr@, v2, x),
                forall|x: int, v2: int|
                    0 <= v2 < v && 0 <= x < n && front@[v2] && #[trigger] lone_pending(g@, corr@, v2, x)
                        ==> newm@[x],
                (forall|x: int| 0 <= x < n ==> !#[trigger] newm@[x]) ==> forall|x: int, u: int|
                    0 <= x < v && #[trigger] front@[x] ==> !#[trigger] lone_pending(
                        g@,
                        corr@,
                        x,
                        u,
                    ),
            decreases n - v,
        {
            if front[v] {
                match lone_uncorrected(&g, &corr, v) {
                    Some(u) => {
                        if newm[u] {
                            assert(newm@[u as int]);
                            assert forall|x: int, v2: int|
                                0 <= v2 < v + 1 && 0 <= x < n && front@[v2] && #[trigger] lone_pending(g@, corr@, v2, x)
                                implies newm@[x] by {
                                if v2 == v {
                                    assert(lone_pending(g@, corr@, v as int, u as int));
                                }
                            }
                        } else {
                            let ghost f0 = f@;
                            let ghost lay0 = layer@;
                            assert(adj(g@, u as int, v as int));
                            f.set(u, Some(v));
                            layer.set(u, l);
                            newm.set(u, true);
                            usedl.set(v, true);
                            assert(newm@[u as int]);
                            assert(cflow_corrected(g@, imask@, omask@, (l + 1) as nat)[u as int]) by {
                                assert(lone_pending(g@, corr@, v as int, u as int));
                            }
                            assert forall|x: int| 0 <= x < n && (#[trigger] f@[x]).is_some() implies !cflow_corrected(
                                g@,
                                imask@,
                                omask@,
                                layer@[x] as nat,
                            )[x] && cflow_corrected(g@, imask@, omask@, (layer@[x] + 1) as nat)[x] by {
                                if x != u {
                                    assert(f0[x].is_some());
                                }
                            }
                            assert forall|x: int, v2: int|
                                0 <= v2 < v + 1 && 0 <= x < n && front@[v2] && #[trigger] lone_pending(g@, corr@, v2, x)
                                implies newm@[x] by {
                                if v2 == v {
                                    assert(lone_pending(g@, corr@, v as int, u as int));
                                }
                            }
                            assert forall|x: int| 0 <= x < n && (#[trigger] f@[x]).is_some()
                                implies correction_ok(g@, f@, layer@, imask@, corr@, x) by {
                                if x != u {
                                    assert(f@[x] == f0[x]);
                                    assert(correction_ok(g@, f0, lay0, imask@, corr@, x));
                                } else {
                                    assert forall|w: int|
                                        0 <= w < n && w != u && #[trigger] adj(g@, v as int, w)
                                        implies corr@[w] && layer@[w] < layer@[u as int] by {
                                    }
                                }
                            }
                        }
                    },
                    None => {},
                }
            }
            v = v + 1;
        }
        if is_clear(&newm) {
            stop = true;
            proof {
                if exists|x: int| 0 <= x < n && !#[trigger] corr@[x] {
                    assert forall|x: int, u: int|
                        0 <= x < n && #[trigger] corr@[x] && !imask@[x] implies !#[trigger] lone_pending(
                            g@,
                            corr@,
                            x,
                            u,
                        ) by {
                        if !front@[x] {
                            assert(used@[x]);
                            if lone_pending(g@, corr@, x, u) {
                                assert(adj(g@, x, u));
                            }
                        }
                    }
                    assert(cflow_stalled(g@, imask@, omask@, corr@));
                }
            }
        } else {
            let ghost c0 = corr@;
            let ghost fr0 = front@;
            let ghost us0 = used@;
            let none = empty_mask(n);
            union_with_difference(&mut corr, &newm, &none);
            difference_with(&mut front, &usedl);
            union_with_difference(&mut front, &newm, &imask);
            union_with_difference(&mut used, &usedl, &none);
            proof {
                assert forall|y: int| 0 <= y < n implies #[trigger] corr@[y] == cflow_next(g@, imask@, c0)[y] by {
                    if exists|v2: int| 0 <= v2 < n && c0[v2] && !imask@[v2] && #[trigger] lone_pending(g@, c0, v2, y) {
                        let v2 = choose|v2: int| 0 <= v2 < n && c0[v2] && !imask@[v2] && #[trigger] lone_pending(g@, c0, v2, y);
                        if !fr0[v2] {
                            assert(us0[v2]);
                            assert(adj(g@, v2, y));
                        }
                    }
                }
                assert(corr@ =~= cflow_next(g@, imask@, c0));
                assert(cflow_corrected(g@, imask@, omask@, (l + 1) as nat) == cflow_next(g@, imask@, c0));
                let x = choose|x: int| 0 <= x < n && #[trigger] newm@[x];
                assert forall|y: int| 0 <= y < n && #[trigger] c0[y] implies corr@[y] by {
                }
                lemma_count_shrinks(corr@, c0, n as int);
                assert(corr@[x] && !c0[x]);
                assert forall|y: int, w: int|
                    0 <= y < n && 0 <= w < n && #[trigger] used@[y] && #[trigger] adj(g@, y, w)
                    implies corr@[w] by {
                    if us0[y] {
                        assert(c0[w]);
                    }
                }
                assert forall|u: int| 0 <= u < n && (#[trigger] f@[u]).is_some() implies correction_ok(
                    g@,
                    f@,
                    layer@,
                    imask@,
                    corr@,
                    u,
                ) by {
                    assert(correction_ok(g@, f@, layer@, imask@, c0, u));
                }
            }
            l = l + 1;
        }
    }
    if is_full(&corr) {
        proof {
            assert forall|u: int| 0 <= u < n && (#[trigger] f@[u]).is_some() implies {
                let v = f@[u]->0 as int;
                &&& v < n
                &&& !imask@[v]
                &&& adj(g@, u, v)
                &&& layer@[v] < layer@[u]
                &&& forall|w: int|
                    0 <= w < n && w != u && #[trigger] adj(g@, v, w) ==> layer@[w] < layer@[u]
            } by {
                assert(correction_ok(g@, f@, layer@, imask@, corr@, u));
            }
            assert forall|v: int| 0 <= v < n && omask@[v] implies #[trigger] layer@[v] == 0 by {
                assert(f@[v].is_none());
            }
            assert forall|u: int| 0 <= u < n implies (#[trigger] f@[u]).is_some() == !omask@[u] by {
                assert(corr@[u]);
            }
        }
        Some((f, layer))
    } else {
        proof {
            if !stop {
                lemma_count_full(corr@, n as int);
            }
        }
        None
    }
}

/// Every entry of the mask is set.
fn is_full(a: &Vec<bool>) -> (r: bool)
    ensures
        r == forall|v: int| 0 <= v < a@.len() ==> #[trigger] a@[v],
{
    let mut v: usize = 0;
    while v < a.len()
        invariant
            v <= a@.len(),
            forall|w: int| 0 <= w < v ==> #[trigger] a@[w],
        decreases a@.len() - v,
    {
        if !a[v] {
            return false;
        }
        v = v + 1;
    }
    true
}

} // verus!
