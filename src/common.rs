//! Graphs, vertex sets and the checks shared by the flow finders.
use vstd::prelude::*;

verus! {

/// Neighbour lists, indexed by vertex id.
pub type Graph = Vec<Vec<usize>>;

/// Layer number of each vertex.
pub type Layer = Vec<usize>;

/// Every neighbour id is a vertex of the graph.
pub open spec fn graph_wf(g: Seq<Vec<usize>>) -> bool {
    forall|u: int, k: int|
        0 <= u < g.len() && 0 <= k < g[u]@.len() ==> (#[trigger] g[u]@[k]) < g.len()
}

/// The graph is simple and undirected: no repeated neighbour, no self-loop,
/// and each edge listed at both ends.
pub open spec fn graph_simple(g: Seq<Vec<usize>>) -> bool {
    &&& forall|v: int| 0 <= v < g.len() ==> (#[trigger] g[v])@.no_duplicates()
    &&& forall|v: int| 0 <= v < g.len() ==> !#[trigger] adj(g, v, v)
    &&& forall|v: int, w: int|
        #![trigger adj(g, v, w)]
        0 <= v < g.len() && 0 <= w < g.len() ==> adj(g, v, w) == adj(g, w, v)
}

/// `w` is listed among the neighbours of `v`.
pub open spec fn adj(g: Seq<Vec<usize>>, v: int, w: int) -> bool {
    g[v]@.contains(w as usize)
}

/// The set of listed vertices, as a membership mask over `0..n`.
pub open spec fn mask_of(l: Seq<usize>, n: nat) -> Seq<bool> {
    Seq::new(n, |v: int| l.contains(v as usize))
}

/// Every listed vertex is below `n`.
pub open spec fn in_range(l: Seq<usize>, n: nat) -> bool {
    forall|k: int| 0 <= k < l.len() ==> (#[trigger] l[k]) < n
}

/// `l` lists the members of `mask` in increasing order.
pub open spec fn lists_mask(l: Seq<usize>, mask: Seq<bool>) -> bool {
    &&& forall|a: int, b: int| 0 <= a < b < l.len() ==> l[a] < l[b]
    &&& forall|k: int| 0 <= k < l.len() ==> (#[trigger] l[k]) < mask.len() && mask[l[k] as int]
    &&& forall|v: int| 0 <= v < mask.len() && mask[v] ==> #[trigger] l.contains(v as usize)
}

/// Parity of the first `k` listed neighbours that lie in `s`.
pub open spec fn odd_count(nb: Seq<usize>, s: Seq<bool>, k: int) -> bool
    decreases k,
{
    if k <= 0 {
        false
    } else {
        odd_count(nb, s, k - 1) != s[nb[k - 1] as int]
    }
}

/// `v` has an odd number of neighbours in `s`.
pub open spec fn in_odd(g: Seq<Vec<usize>>, s: Seq<bool>, v: int) -> bool {
    odd_count(g[v]@, s, g[v]@.len() as int)
}

/// The members of the first `k` entries of `mask`, in increasing order.
pub open spec fn members_below(mask: Seq<bool>, k: int) -> Seq<usize>
    decreases k,
{
    if k <= 0 {
        Seq::empty()
    } else if mask[k - 1] {
        members_below(mask, k - 1).push((k - 1) as usize)
    } else {
        members_below(mask, k - 1)
    }
}

/// The members of `mask`, in increasing order.
pub open spec fn members(mask: Seq<bool>) -> Seq<usize> {
    members_below(mask, mask.len() as int)
}

pub proof fn lemma_members_in(mask: Seq<bool>, k: int)
    requires
        0 <= k <= mask.len(),
        mask.len() <= usize::MAX,
    ensures
        forall|i: int|
            0 <= i < members_below(mask, k).len() ==> (#[trigger] members_below(mask, k)[i]) < k
                && mask[members_below(mask, k)[i] as int],
    decreases k,
{
    if k > 0 {
        lemma_members_in(mask, k - 1);
        let prev = members_below(mask, k - 1);
        let cur = members_below(mask, k);
        assert forall|i: int| 0 <= i < cur.len() implies (#[trigger] cur[i]) < k && mask[cur[i] as int] by {
            if i < prev.len() {
                assert(cur[i] == prev[i]);
            }
        }
    }
}

pub proof fn lemma_members_sorted_complete(mask: Seq<bool>, k: int)
    requires
        0 <= k <= mask.len(),
        mask.len() <= usize::MAX,
    ensures
        forall|a: int, b: int|
            0 <= a < b < members_below(mask, k).len() ==> members_below(mask, k)[a] < members_below(
                mask,
                k,
            )[b],
        forall|v: int| 0 <= v < k && mask[v] ==> #[trigger] members_below(mask, k).contains(v as usize),
    decreases k,
{
    if k > 0 {
        lemma_members_sorted_complete(mask, k - 1);
        lemma_members_in(mask, k - 1);
        let prev = members_below(mask, k - 1);
        let cur = members_below(mask, k);
        assert forall|v: int| 0 <= v < k && mask[v] implies #[trigger] cur.contains(v as usize) by {
            if v < k - 1 {
                assert(prev.contains(v as usize));
                let i = choose|i: int| 0 <= i < prev.len() && prev[i] == v as usize;
                assert(cur[i] == v as usize);
            } else {
                assert(cur[cur.len() - 1] == v as usize);
            }
        }
    }
}

/// The number of set entries among the first `k`.
pub open spec fn count_below(mask: Seq<bool>, k: int) -> nat
    decreases k,
{
    if k <= 0 {
        0
    } else {
        count_below(mask, k - 1) + if mask[k - 1] {
            1nat
        } else {
            0nat
        }
    }
}

/// Removing from a mask a set of its members that is not empty lowers the count.
pub proof fn lemma_count_shrinks(a: Seq<bool>, b: Seq<bool>, k: int)
    requires
        a.len() == b.len(),
        0 <= k <= a.len(),
        forall|v: int| 0 <= v < a.len() && #[trigger] b[v] ==> a[v],
    ensures
        count_below(b, k) <= count_below(a, k),
        (exists|v: int| 0 <= v < k && a[v] && !#[trigger] b[v]) ==> count_below(b, k) < count_below(
            a,
            k,
        ),
    decreases k,
{
    if k > 0 {
        lemma_count_shrinks(a, b, k - 1);
        if exists|v: int| 0 <= v < k && a[v] && !#[trigger] b[v] {
            let v = choose|v: int| 0 <= v < k && a[v] && !#[trigger] b[v];
            if v < k - 1 {
                assert(exists|v2: int| 0 <= v2 < k - 1 && a[v2] && !#[trigger] b[v2]);
            }
        }
    }
}

pub proof fn lemma_count_zero(a: Seq<bool>, k: int)
    requires
        0 <= k <= a.len(),
        count_below(a, k) == 0,
    ensures
        forall|v: int| 0 <= v < k ==> !#[trigger] a[v],
    decreases k,
{
    if k > 0 {
        lemma_count_zero(a, k - 1);
    }
}

pub proof fn lemma_count_full(a: Seq<bool>, k: int)
    requires
        0 <= k <= a.len(),
        count_below(a, k) >= k,
    ensures
        forall|v: int| 0 <= v < k ==> #[trigger] a[v],
    decreases k,
{
    if k > 0 {
        lemma_count_bound(a, k - 1);
        lemma_count_full(a, k - 1);
    }
}

pub proof fn lemma_count_bound(a: Seq<bool>, k: int)
    requires
        0 <= k,
    ensures
        count_below(a, k) <= k,
    decreases k,
{
    if k > 0 {
        lemma_count_bound(a, k - 1);
    }
}

/// A mask of `n` clear entries.
pub fn empty_mask(n: usize) -> (r: Vec<bool>)
    ensures
        r@ == Seq::new(n as nat, |v: int| false),
{
    let mut r: Vec<bool> = Vec::new();
    let mut i: usize = 0;
    while i < n
        invariant
            i <= n,
            r@ == Seq::new(i as nat, |v: int| false),
        decreases n - i,
    {
        r.push(false);
        i = i + 1;
    }
    r
}

/// The membership mask over `0..n` of the listed vertices.
pub fn to_mask(l: &Vec<usize>, n: usize) -> (r: Vec<bool>)
    requires
        in_range(l@, n as nat),
    ensures
        r@ == mask_of(l@, n as nat),
{
    let mut r = empty_mask(n);
    let mut k: usize = 0;
    while k < l.len()
        invariant
            k <= l@.len(),
            in_range(l@, n as nat),
            r@.len() == n,
            forall|v: int|
                0 <= v < n ==> #[trigger] r@[v] == exists|k2: int|
                    0 <= k2 < k && l@[k2] == v as usize,
        decreases l@.len() - k,
    {
        let w = l[k];
        assert(w < n);
        r.set(w, true);
        assert forall|v: int| 0 <= v < n implies #[trigger] r@[v] == exists|k2: int|
            0 <= k2 < k + 1 && l@[k2] == v as usize by {
            if v == w as int {
                assert(l@[k as int] == v as usize);
            }
        }
        k = k + 1;
    }
    assert(r@ =~= mask_of(l@, n as nat));
    r
}

/// The members of a mask in increasing order.
pub fn ordered(mask: &Vec<bool>) -> (r: Vec<usize>)
    ensures
        r@ == members(mask@),
        lists_mask(r@, mask@),
        r@.len() <= mask@.len(),
{
    let mut r: Vec<usize> = Vec::new();
    let mut v: usize = 0;
    while v < mask.len()
        invariant
            v <= mask@.len(),
            r@ == members_below(mask@, v as int),
            r@.len() <= v,
            forall|a: int, b: int| 0 <= a < b < r@.len() ==> r@[a] < r@[b],
            forall|k: int| 0 <= k < r@.len() ==> (#[trigger] r@[k]) < v && mask@[r@[k] as int],
            forall|w: int| 0 <= w < v && mask@[w] ==> #[trigger] r@.contains(w as usize),
        decreases mask@.len() - v,
    {
        if mask[v] {
            let ghost before = r@;
            r.push(v);
            assert forall|w: int| 0 <= w < v + 1 && mask@[w] implies #[trigger] r@.contains(
                w as usize,
            ) by {
                if w == v as int {
                    assert(r@[r@.len() - 1] == w as usize);
                } else {
                    assert(before.contains(w as usize));
                    let k = choose|k: int| 0 <= k < before.len() && before[k] == w as usize;
                    assert(r@[k] == w as usize);
                }
            }
        }
        v = v + 1;
    }
    r
}

/// The vertices with an odd number of neighbours in `s`.
pub fn odd_neighbors(g: &Graph, s: &Vec<bool>) -> (r: Vec<bool>)
    requires
        graph_wf(g@),
        s@.len() == g@.len(),
    ensures
        r@.len() == g@.len(),
        forall|v: int| 0 <= v < g@.len() ==> #[trigger] r@[v] == in_odd(g@, s@, v),
{
    let n = g.len();
    let mut r: Vec<bool> = Vec::new();
    let mut v: usize = 0;
    while v < n
        invariant
            v <= n,
            n == g@.len(),
            graph_wf(g@),
            s@.len() == n,
            r@.len() == v,
            forall|w: int| 0 <= w < v ==> #[trigger] r@[w] == in_odd(g@, s@, w),
        decreases n - v,
    {
        let nb = &g[v];
        let mut acc = false;
        let mut k: usize = 0;
        while k < nb.len()
            invariant
                k <= nb@.len(),
                nb == g@[v as int],
                v < n,
                n == g@.len(),
                graph_wf(g@),
                s@.len() == n,
                acc == odd_count(nb@, s@, k as int),
            decreases nb@.len() - k,
        {
            assert(nb@[k as int] < n);
            acc = acc != s[nb[k]];
            k = k + 1;
        }
        r.push(acc);
        v = v + 1;
    }
    r
}

/// The correction sets are defined exactly off the outputs, and hold vertices
/// of the graph that are not inputs.
pub open spec fn domain_ok(
    f: Seq<Option<Vec<usize>>>,
    n: nat,
    iset: Seq<bool>,
    oset: Seq<bool>,
) -> bool {
    &&& f.len() == n
    &&& forall|u: int| 0 <= u < n ==> (#[trigger] f[u]).is_some() == !oset[u]
    &&& forall|u: int, k: int|
        0 <= u < n && f[u].is_some() && 0 <= k < f[u]->0@.len() ==> (#[trigger] f[u]->0@[k]) < n
            && !iset[f[u]->0@[k] as int]
}

/// Checks `domain_ok`.
pub fn check_domain(f: &Vec<Option<Vec<usize>>>, iset: &Vec<bool>, oset: &Vec<bool>) -> (r: bool)
    requires
        iset@.len() == oset@.len(),
    ensures
        r == domain_ok(f@, oset@.len(), iset@, oset@),
{
    let n = oset.len();
    if f.len() != n {
        return false;
    }
    let mut u: usize = 0;
    while u < n
        invariant
            u <= n,
            n == oset@.len(),
            n == iset@.len(),
            f@.len() == n,
            forall|u2: int| 0 <= u2 < u ==> (#[trigger] f@[u2]).is_some() == !oset@[u2],
            forall|u2: int, k: int|
                0 <= u2 < u && f@[u2].is_some() && 0 <= k < f@[u2]->0@.len() ==> (
                #[trigger] f@[u2]->0@[k]) < n && !iset@[f@[u2]->0@[k] as int],
        decreases n - u,
    {
        match &f[u] {
            None => {
                if !oset[u] {
                    return false;
                }
            },
            Some(fu) => {
                if oset[u] {
                    return false;
                }
                let mut k: usize = 0;
                while k < fu.len()
                    invariant
                        k <= fu@.len(),
                        u < n,
                        n == iset@.len(),
                        f@.len() == n,
                        f@[u as int] == Some(*fu),
                        forall|k2: int|
                            0 <= k2 < k ==> (#[trigger] fu@[k2]) < n && !iset@[fu@[k2] as int],
                    decreases fu@.len() - k,
                {
                    if fu[k] >= n || iset[fu[k]] {
                        assert(f@[u as int]->0@[k as int] == fu@[k as int]);
                        return false;
                    }
                    k = k + 1;
                }
            },
        }
        u = u + 1;
    }
    true
}

/// Every output vertex sits at layer 0.
pub open spec fn initial_ok(layer: Seq<usize>, oset: Seq<bool>) -> bool {
    &&& layer.len() == oset.len()
    &&& forall|v: int| 0 <= v < oset.len() && oset[v] ==> #[trigger] layer[v] == 0
}

/// Checks `initial_ok`.
pub fn check_initial(layer: &Layer, oset: &Vec<bool>) -> (r: bool)
    ensures
        r == initial_ok(layer@, oset@),
{
    if layer.len() != oset.len() {
        return false;
    }
    let mut v: usize = 0;
    while v < oset.len()
        invariant
            v <= oset@.len(),
            layer@.len() == oset@.len(),
            forall|w: int| 0 <= w < v && oset@[w] ==> #[trigger] layer@[w] == 0,
        decreases oset@.len() - v,
    {
        if oset[v] && layer[v] != 0 {
            return false;
        }
        v = v + 1;
    }
    true
}

/// Removes from `a` the members of `b`.
pub fn difference_with(a: &mut Vec<bool>, b: &Vec<bool>)
    requires
        old(a)@.len() == b@.len(),
    ensures
        final(a)@ == Seq::new(b@.len(), |v: int| old(a)@[v] && !b@[v]),
{
    let ghost a0 = a@;
    let mut v: usize = 0;
    while v < b.len()
        invariant
            v <= b@.len(),
            a@.len() == b@.len(),
            a0.len() == b@.len(),
            forall|w: int| 0 <= w < v ==> #[trigger] a@[w] == (a0[w] && !b@[w]),
            forall|w: int| v <= w < b@.len() ==> #[trigger] a@[w] == a0[w],
        decreases b@.len() - v,
    {
        if b[v] {
            a.set(v, false);
        }
        v = v + 1;
    }
    assert(a@ =~= Seq::new(b@.len(), |v: int| a0[v] && !b@[v]));
}

/// Adds to `a` the members of `b` that are not in `c`.
pub fn union_with_difference(a: &mut Vec<bool>, b: &Vec<bool>, c: &Vec<bool>)
    requires
        old(a)@.len() == b@.len(),
        c@.len() == b@.len(),
    ensures
        final(a)@ == Seq::new(b@.len(), |v: int| old(a)@[v] || (b@[v] && !c@[v])),
{
    let ghost a0 = a@;
    let mut v: usize = 0;
    while v < b.len()
        invariant
            v <= b@.len(),
            a@.len() == b@.len(),
            c@.len() == b@.len(),
            a0.len() == b@.len(),
            forall|w: int| 0 <= w < v ==> #[trigger] a@[w] == (a0[w] || (b@[w] && !c@[w])),
            forall|w: int| v <= w < b@.len() ==> #[trigger] a@[w] == a0[w],
        decreases b@.len() - v,
    {
        if b[v] && !c[v] {
            a.set(v, true);
        }
        v = v + 1;
    }
    assert(a@ =~= Seq::new(b@.len(), |v: int| a0[v] || (b@[v] && !c@[v])));
}

/// No entry of the mask is set.
pub fn is_clear(a: &Vec<bool>) -> (r: bool)
    ensures
        r == forall|v: int| 0 <= v < a@.len() ==> !#[trigger] a@[v],
{
    let mut v: usize = 0;
    while v < a.len()
        invariant
            v <= a@.len(),
            forall|w: int| 0 <= w < v ==> !#[trigger] a@[w],
        decreases a@.len() - v,
    {
        if a[v] {
            return false;
        }
        v = v + 1;
    }
    true
}

} // verus!
