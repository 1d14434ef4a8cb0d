//! Measurement planes and the definition of a Pauli flow.
use crate::common::{graph_wf, in_odd, in_range, mask_of, odd_neighbors, to_mask, Graph, Layer};
use vstd::prelude::*;

verus! {

/// Measurement plane of a non-output vertex: a rotation plane or a Pauli axis.
#[derive(PartialEq, Eq, Clone, Copy, Debug, Structural)]
pub enum PPlane {
    XY,
    YZ,
    ZX,
    X,
    Y,
    Z,
}

/// The integer tag of each plane on the boundary.
pub open spec fn plane_tag(p: PPlane) -> u8 {
    match p {
        PPlane::XY => 0,
        PPlane::YZ => 1,
        PPlane::ZX => 2,
        PPlane::X => 3,
        PPlane::Y => 4,
        PPlane::Z => 5,
    }
}

/// The plane that an integer tag stands for, if any.
pub open spec fn plane_of_tag(t: u8) -> Option<PPlane> {
    if t == 0 {
        Some(PPlane::XY)
    } else if t == 1 {
        Some(PPlane::YZ)
    } else if t == 2 {
        Some(PPlane::ZX)
    } else if t == 3 {
        Some(PPlane::X)
    } else if t == 4 {
        Some(PPlane::Y)
    } else if t == 5 {
        Some(PPlane::Z)
    } else {
        None
    }
}

impl PPlane {
    /// The plane with tag `v`, or `None` past the last tag.
    pub fn from_u8(v: u8) -> (r: Option<PPlane>)
        ensures
            r == plane_of_tag(v),
            r.is_some() == (v < 6),
            r matches Some(p) ==> plane_tag(p) == v,
    {
        match v {
            0 => Some(PPlane::XY),
            1 => Some(PPlane::YZ),
            2 => Some(PPlane::ZX),
            3 => Some(PPlane::X),
            4 => Some(PPlane::Y),
            5 => Some(PPlane::Z),
            _ => None,
        }
    }

    /// The tag of this plane.
    pub fn to_u8(self) -> (r: u8)
        ensures
            r == plane_tag(self),
            plane_of_tag(r) == Some(self),
    {
        match self {
            PPlane::XY => 0,
            PPlane::YZ => 1,
            PPlane::ZX => 2,
            PPlane::X => 3,
            PPlane::Y => 4,
            PPlane::Z => 5,
        }
    }
}

/// `p` is one of the two planes `a` and `b`.
pub open spec fn plane_in(p: Option<PPlane>, a: PPlane, b: PPlane) -> bool {
    p == Some(a) || p == Some(b)
}

/// What the plane of `u` asks of `a = u ∈ f(u)` and `b = u ∈ Odd(f(u))`.
pub open spec fn plane_ok(p: PPlane, a: bool, b: bool) -> bool {
    match p {
        PPlane::XY => !a && b,
        PPlane::YZ => a && !b,
        PPlane::ZX => a && b,
        PPlane::X => b,
        PPlane::Y => a != b,
        PPlane::Z => a,
    }
}

/// What a correction set `s` asks of a vertex `v` measured no later than its
/// owner (higher layers are measured first): in `s` only if measured in X or
/// Y, in `Odd(s)` only if measured in Y or Z, and in both or neither if
/// measured in Y.
pub open spec fn conds(g: Seq<Vec<usize>>, pplane: Seq<Option<PPlane>>, s: Seq<bool>, v: int) -> bool {
    &&& s[v] ==> plane_in(pplane[v], PPlane::X, PPlane::Y)
    &&& in_odd(g, s, v) ==> plane_in(pplane[v], PPlane::Y, PPlane::Z)
    &&& !(pplane[v] == Some(PPlane::Y) && s[v] != in_odd(g, s, v))
}

/// The conditions that a correction set `s` of `u` places on a vertex `v != u`
/// whose layer is at least that of `u`, so measured no later than `u`.
pub open spec fn later_ok(
    g: Seq<Vec<usize>>,
    layer: Seq<usize>,
    pplane: Seq<Option<PPlane>>,
    u: int,
    s: Seq<bool>,
    v: int,
) -> bool {
    (v != u && layer[u] <= layer[v]) ==> conds(g, pplane, s, v)
}

/// `s` is a correction set of `u` as a Pauli flow defines it.
pub open spec fn vertex_ok(
    g: Seq<Vec<usize>>,
    layer: Seq<usize>,
    pplane: Seq<Option<PPlane>>,
    u: int,
    s: Seq<bool>,
) -> bool {
    &&& forall|v: int| 0 <= v < g.len() ==> #[trigger] later_ok(g, layer, pplane, u, s, v)
    &&& plane_ok(pplane[u]->0, s[u], in_odd(g, s, u))
}

/// `(f, layer)` is a Pauli flow of `g` for the planes `pplane`: `f` is defined
/// exactly where a plane is, and each of its sets is a correction set.
pub open spec fn pflow_def(
    f: Seq<Option<Vec<usize>>>,
    layer: Seq<usize>,
    g: Seq<Vec<usize>>,
    pplane: Seq<Option<PPlane>>,
) -> bool {
    &&& forall|u: int| 0 <= u < g.len() ==> (#[trigger] f[u]).is_some() == pplane[u].is_some()
    &&& forall|u: int|
        0 <= u < g.len() && (#[trigger] f[u]).is_some() ==> vertex_ok(
            g,
            layer,
            pplane,
            u,
            mask_of(f[u]->0@, g.len()),
        )
}

/// Each correction set lists vertices of the graph.
pub open spec fn flow_in_range(f: Seq<Option<Vec<usize>>>, n: nat) -> bool {
    forall|u: int| 0 <= u < f.len() && (#[trigger] f[u]).is_some() ==> in_range(f[u]->0@, n)
}

/// Why a candidate flow is not a Pauli flow.
#[derive(PartialEq, Eq, Clone, Copy, Debug, Structural)]
pub enum DefinitionError {
    /// `f` and the planes are defined on different vertices.
    Codomain(usize),
    /// A vertex of `f(u)` measured no later than `u` is not measured in X or Y.
    Layer(usize, usize),
    /// A vertex of `Odd(f(u))` measured no later than `u` is not measured in Y or Z.
    OddLayer(usize, usize),
    /// A Y-measured vertex measured no later than `u` is in `f(u) △ Odd(f(u))`.
    YCorrection(usize, usize),
    /// `u` itself does not meet what its plane asks.
    Plane(usize),
}

/// Checks `later_ok` for every vertex.
fn check_later(
    g: &Graph,
    layer: &Layer,
    pplane: &Vec<Option<PPlane>>,
    u: usize,
    s: &Vec<bool>,
    t: &Vec<bool>,
) -> (r: Result<(), DefinitionError>)
    requires
        graph_wf(g@),
        u < g@.len(),
        layer@.len() == g@.len(),
        pplane@.len() == g@.len(),
        s@.len() == g@.len(),
        t@.len() == g@.len(),
        forall|v: int| 0 <= v < g@.len() ==> #[trigger] t@[v] == in_odd(g@, s@, v),
    ensures
        r.is_ok() == forall|v: int|
            0 <= v < g@.len() ==> #[trigger] later_ok(g@, layer@, pplane@, u as int, s@, v),
{
    let n = g.len();
    let mut v: usize = 0;
    while v < n
        invariant
            v <= n,
            n == g@.len(),
            u < n,
            layer@.len() == n,
            pplane@.len() == n,
            s@.len() == n,
            t@.len() == n,
            forall|w: int| 0 <= w < n ==> #[trigger] t@[w] == in_odd(g@, s@, w),
            forall|w: int| 0 <= w < v ==> #[trigger] later_ok(g@, layer@, pplane@, u as int, s@, w),
        decreases n - v,
    {
        if v != u && layer[u] <= layer[v] {
            let pv = pplane[v];
            if s[v] && !(pv == Some(PPlane::X) || pv == Some(PPlane::Y)) {
                assert(!later_ok(g@, layer@, pplane@, u as int, s@, v as int));
                return Err(DefinitionError::Layer(u, v));
            }
            if t[v] && !(pv == Some(PPlane::Y) || pv == Some(PPlane::Z)) {
                assert(!later_ok(g@, layer@, pplane@, u as int, s@, v as int));
                return Err(DefinitionError::OddLayer(u, v));
            }
            if pv == Some(PPlane::Y) && s[v] != t[v] {
                assert(!later_ok(g@, layer@, pplane@, u as int, s@, v as int));
                return Err(DefinitionError::YCorrection(u, v));
            }
        }
        v = v + 1;
    }
    Ok(())
}

/// Decides whether `(f, layer)` is a Pauli flow of `g` for the planes `pplane`.
pub fn check_definition(
    f: &Vec<Option<Vec<usize>>>,
    layer: &Layer,
    g: &Graph,
    pplane: &Vec<Option<PPlane>>,
) -> (r: Result<(), DefinitionError>)
    requires
        graph_wf(g@),
        f@.len() == g@.len(),
        layer@.len() == g@.len(),
        pplane@.len() == g@.len(),
        flow_in_range(f@, g@.len()),
    ensures
        r.is_ok() == pflow_def(f@, layer@, g@, pplane@),
{
    let n = g.len();
    let mut u: usize = 0;
    while u < n
        invariant
            u <= n,
            n == g@.len(),
            graph_wf(g@),
            f@.len() == n,
            layer@.len() == n,
            pplane@.len() == n,
            flow_in_range(f@, n as nat),
            forall|w: int| 0 <= w < u ==> (#[trigger] f@[w]).is_some() == pplane@[w].is_some(),
            forall|w: int|
                0 <= w < u && (#[trigger] f@[w]).is_some() ==> vertex_ok(
                    g@,
                    layer@,
                    pplane@,
                    w,
                    mask_of(f@[w]->0@, n as nat),
                ),
        decreases n - u,
    {
        match (&f[u], pplane[u]) {
            (Some(fu), Some(pu)) => {
                assert(in_range(f@[u as int]->0@, n as nat));
                let s = to_mask(fu, n);
                let t = odd_neighbors(g, &s);
                match check_later(g, layer, pplane, u, &s, &t) {
                    Ok(()) => {},
                    Err(e) => {
                        return Err(e);
                    },
                }
                let a = s[u];
                let b = t[u];
                let ok = match pu {
                    PPlane::XY => !a && b,
                    PPlane::YZ => a && !b,
                    PPlane::ZX => a && b,
                    PPlane::X => b,
                    PPlane::Y => a != b,
                    PPlane::Z => a,
                };
                if !ok {
                    return Err(DefinitionError::Plane(u));
                }
            },
            (None, None) => {},
            _ => {
                return Err(DefinitionError::Codomain(u));
            },
        }
        u = u + 1;
    }
    Ok(())
}

} // verus!
