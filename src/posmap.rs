//! Positions of vertices in a list of distinct vertices, kept in a
//! `hashbrown::HashMap`.
use crate::common::in_range;
use vstd::prelude::*;

verus! {

/// A map from vertex to position. The map itself is hidden from the verifier
/// (hashbrown's map carries hasher and allocator parameters that cannot be
/// declared); `positions` stands for its contents.
#[verifier::external_body]
pub struct PosMap {
    m: hashbrown::HashMap<usize, usize>,
}

/// The entries held by a `PosMap`.
pub uninterp spec fn positions(p: PosMap) -> Map<usize, usize>;

/// Relies on `hashbrown::HashMap::new`: a map without entries.
#[verifier::external_body]
pub(crate) fn pos_new() -> (r: PosMap)
    ensures
        forall|k: usize| !#[trigger] positions(r).dom().contains(k),
{
    PosMap { m: hashbrown::HashMap::new() }
}

/// Relies on `hashbrown::HashMap::insert`: `k` now maps to `v`, other entries stay.
#[verifier::external_body]
pub(crate) fn pos_insert(p: &mut PosMap, k: usize, v: usize)
    ensures
        positions(*final(p)) == positions(*old(p)).insert(k, v),
{
    p.m.insert(k, v);
}

/// Relies on `hashbrown::HashMap::get`: the value of `k`, if it has one.
#[verifier::external_body]
pub(crate) fn pos_get(p: &PosMap, k: usize) -> (r: Option<usize>)
    ensures
        r == if positions(*p).dom().contains(k) {
            Some(positions(*p)[k])
        } else {
            None::<usize>
        },
{
    p.m.get(&k).copied()
}

/// `idx` gives the position of each vertex of the increasing list `cols`, and
/// has no entry for any other vertex.
pub open spec fn indexes(idx: Map<usize, usize>, cols: Seq<usize>, n: nat) -> bool {
    &&& in_range(cols, n)
    &&& forall|a: int, b: int| 0 <= a < b < cols.len() ==> cols[a] < cols[b]
    &&& forall|w: usize|
        #[trigger] idx.dom().contains(w) ==> idx[w] < cols.len() && cols[idx[w] as int] == w
    &&& forall|w: usize| #[trigger] cols.contains(w) ==> idx.dom().contains(w)
}

/// The position of each vertex of the increasing list `l`.
pub fn position_map(l: &Vec<usize>, n: usize) -> (r: PosMap)
    requires
        in_range(l@, n as nat),
        forall|a: int, b: int| 0 <= a < b < l@.len() ==> l@[a] < l@[b],
    ensures
        indexes(positions(r), l@, n as nat),
{
    let mut m = pos_new();
    let mut i: usize = 0;
    while i < l.len()
        invariant
            i <= l@.len(),
            forall|w: usize|
                #[trigger] positions(m).dom().contains(w) ==> positions(m)[w] < i && l@[positions(
                    m,
                )[w] as int] == w,
            forall|k: int| 0 <= k < i ==> positions(m).dom().contains(#[trigger] l@[k]),
        decreases l@.len() - i,
    {
        pos_insert(&mut m, l[i], i);
        i = i + 1;
    }
    assert forall|w: usize| #[trigger] l@.contains(w) implies positions(m).dom().contains(w) by {
        let k = choose|k: int| 0 <= k < l@.len() && l@[k] == w;
        assert(positions(m).dom().contains(l@[k]));
    }
    m
}

} // verus!
