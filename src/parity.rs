//! Parities of finite counts, and how row products over GF(2) relate to odd
//! neighbourhoods.
use crate::common::{adj, in_odd, odd_count};
use crate::gf2_linalg::dot;
use vstd::prelude::*;

verus! {

/// Parity of the number of indices below `n` at which `f` holds.
pub open spec fn psum(f: spec_fn(int) -> bool, n: int) -> bool
    decreases n,
{
    if n <= 0 {
        false
    } else {
        psum(f, n - 1) != f(n - 1)
    }
}

pub proof fn lemma_psum_ext(f: spec_fn(int) -> bool, g: spec_fn(int) -> bool, n: int)
    requires
        forall|i: int| 0 <= i < n ==> #[trigger] f(i) == g(i),
    ensures
        psum(f, n) == psum(g, n),
    decreases n,
{
    if n > 0 {
        lemma_psum_ext(f, g, n - 1);
    }
}

pub proof fn lemma_psum_xor(f: spec_fn(int) -> bool, g: spec_fn(int) -> bool, n: int)
    ensures
        psum(|i: int| f(i) != g(i), n) == (psum(f, n) != psum(g, n)),
    decreases n,
{
    if n > 0 {
        lemma_psum_xor(f, g, n - 1);
    }
}

/// With at most one index where `f` holds, the parity says whether there is one.
pub proof fn lemma_psum_unique(f: spec_fn(int) -> bool, n: int)
    requires
        forall|i: int, j: int| 0 <= i < n && 0 <= j < n && #[trigger] f(i) && #[trigger] f(j) ==> i == j,
    ensures
        psum(f, n) == exists|i: int| 0 <= i < n && #[trigger] f(i),
    decreases n,
{
    if n > 0 {
        lemma_psum_unique(f, n - 1);
        if f(n - 1) {
            assert(!exists|i: int| 0 <= i < n - 1 && #[trigger] f(i));
        }
        if exists|i: int| 0 <= i < n && #[trigger] f(i) {
            let i = choose|i: int| 0 <= i < n && #[trigger] f(i);
            if i < n - 1 {
                assert(exists|i2: int| 0 <= i2 < n - 1 && #[trigger] f(i2));
            }
        }
    }
}

pub proof fn lemma_psum_none(f: spec_fn(int) -> bool, n: int)
    requires
        forall|i: int| 0 <= i < n ==> !#[trigger] f(i),
    ensures
        !psum(f, n),
    decreases n,
{
    if n > 0 {
        lemma_psum_none(f, n - 1);
    }
}

/// Counting pairs by rows or by columns gives the same parity.
pub proof fn lemma_psum_swap(m: spec_fn(int, int) -> bool, a: int, b: int)
    ensures
        psum(|i: int| psum(|j: int| m(i, j), b), a) == psum(|j: int| psum(|i: int| m(i, j), a), b),
    decreases a,
{
    if a > 0 {
        lemma_psum_swap(m, a - 1, b);
        let prev = |j: int| psum(|i: int| m(i, j), a - 1);
        let last = |j: int| m(a - 1, j);
        let cur = |j: int| psum(|i: int| m(i, j), a);
        assert forall|j: int| 0 <= j < b implies #[trigger] cur(j) == (prev(j) != last(j)) by {
        }
        lemma_psum_ext(cur, |j: int| prev(j) != last(j), b);
        lemma_psum_xor(prev, last, b);
        let lhs = |i: int| psum(|j: int| m(i, j), b);
        assert(cur =~= (|j: int| psum(|i: int| m(i, j), a)));
        assert(prev =~= (|j: int| psum(|i: int| m(i, j), a - 1)));
        assert(last =~= (|j: int| m(a - 1, j)));
        assert(lhs(a - 1) == psum(last, b));
        assert(psum(lhs, a) == (psum(lhs, a - 1) != lhs(a - 1)));
    } else {
        let cur = |j: int| psum(|i: int| m(i, j), a);
        assert forall|j: int| 0 <= j < b implies !#[trigger] cur(j) by {
        }
        lemma_psum_none(cur, b);
        assert(cur =~= (|j: int| psum(|i: int| m(i, j), a)));
    }
}

pub proof fn lemma_dot_psum(r: Seq<bool>, x: Seq<bool>, n: int)
    ensures
        dot(r, x, n) == psum(|c: int| r[c] && x[c], n),
    decreases n,
{
    if n > 0 {
        lemma_dot_psum(r, x, n - 1);
    }
}

pub proof fn lemma_odd_count_psum(nb: Seq<usize>, s: Seq<bool>, k: int)
    ensures
        odd_count(nb, s, k) == psum(|i: int| s[nb[i] as int], k),
    decreases k,
{
    if k > 0 {
        lemma_odd_count_psum(nb, s, k - 1);
    }
}

/// The vertices that a solution selects among the candidates.
pub open spec fn selected(cols: Seq<usize>, x: Seq<bool>, n: nat) -> Seq<bool> {
    Seq::new(n, |w: int| exists|c: int| 0 <= c < cols.len() && x[c] && cols[c] == w as usize)
}

/// The product of a solution with the neighbour row of `v` is the parity of
/// the selected neighbours of `v`.
pub proof fn lemma_dot_is_odd(g: Seq<Vec<usize>>, v: int, cols: Seq<usize>, x: Seq<bool>)
    requires
        0 <= v < g.len(),
        g[v]@.no_duplicates(),
        forall|k: int| 0 <= k < g[v]@.len() ==> (#[trigger] g[v]@[k]) < g.len(),
        forall|a: int, b: int| 0 <= a < b < cols.len() ==> cols[a] < cols[b],
    ensures
        psum(|c: int| adj(g, v, cols[c] as int) && x[c], cols.len() as int) == in_odd(
            g,
            selected(cols, x, g.len()),
            v,
        ),
{
    let nb = g[v]@;
    let nc = cols.len() as int;
    let deg = nb.len() as int;
    let sel = selected(cols, x, g.len());
    let m = |c: int, k: int| cols[c] == nb[k] && x[c];
    let rs = |c: int| psum(|k: int| m(c, k), deg);
    let cs = |k: int| psum(|c: int| m(c, k), nc);
    assert forall|c: int| 0 <= c < nc implies #[trigger] rs(c) == (adj(g, v, cols[c] as int)
        && x[c]) by {
        let f = |k: int| m(c, k);
        assert forall|i: int, j: int|
            0 <= i < deg && 0 <= j < deg && #[trigger] f(i) && #[trigger] f(j) implies i == j by {
        }
        lemma_psum_unique(f, deg);
        if adj(g, v, cols[c] as int) && x[c] {
            let k = choose|k: int| 0 <= k < deg && nb[k] == cols[c];
            assert(f(k));
        }
    }
    lemma_psum_ext(|c: int| adj(g, v, cols[c] as int) && x[c], rs, nc);
    lemma_psum_swap(m, nc, deg);
    assert(rs =~= (|i: int| psum(|j: int| m(i, j), deg)));
    assert(cs =~= (|j: int| psum(|i: int| m(i, j), nc)));
    assert forall|k: int| 0 <= k < deg implies #[trigger] cs(k) == sel[nb[k] as int] by {
        let f = |c: int| m(c, k);
        assert forall|i: int, j: int|
            0 <= i < nc && 0 <= j < nc && #[trigger] f(i) && #[trigger] f(j) implies i == j by {
            if i < j {
                assert(cols[i] < cols[j]);
            } else if j < i {
                assert(cols[j] < cols[i]);
            }
        }
        lemma_psum_unique(f, nc);
        assert(cs(k) == psum(f, nc));
        if cs(k) {
            let c = choose|c: int| 0 <= c < nc && #[trigger] f(c);
            assert(x[c] && cols[c] == nb[k]);
        }
        if sel[nb[k] as int] {
            let c = choose|c: int| 0 <= c < nc && x[c] && cols[c] == nb[k];
            assert(f(c));
        }
    }
    lemma_psum_ext(cs, |k: int| sel[nb[k] as int], deg);
    lemma_odd_count_psum(nb, sel, deg);
}

/// Adding a vertex `u` outside `s` flips the odd membership of its neighbours.
pub proof fn lemma_odd_add(g: Seq<Vec<usize>>, s: Seq<bool>, u: usize, v: int)
    requires
        0 <= v < g.len(),
        u < s.len(),
        !s[u as int],
        g[v]@.no_duplicates(),
        forall|k: int| 0 <= k < g[v]@.len() ==> (#[trigger] g[v]@[k]) < s.len(),
    ensures
        in_odd(g, s.update(u as int, true), v) == (in_odd(g, s, v) != adj(g, v, u as int)),
{
    let nb = g[v]@;
    let deg = nb.len() as int;
    let s2 = s.update(u as int, true);
    lemma_odd_count_psum(nb, s2, deg);
    lemma_odd_count_psum(nb, s, deg);
    let f = |i: int| s[nb[i] as int];
    let e = |i: int| nb[i] == u;
    assert forall|i: int| 0 <= i < deg implies #[trigger] s2[nb[i] as int] == (f(i) != e(i)) by {
    }
    lemma_psum_ext(|i: int| s2[nb[i] as int], |i: int| f(i) != e(i), deg);
    lemma_psum_xor(f, e, deg);
    assert forall|i: int, j: int| 0 <= i < deg && 0 <= j < deg && #[trigger] e(i) && #[trigger] e(j) implies i == j by {
    }
    lemma_psum_unique(e, deg);
    if adj(g, v, u as int) {
        let k = choose|k: int| 0 <= k < deg && nb[k] == u;
        assert(e(k));
    }
}

} // verus!
