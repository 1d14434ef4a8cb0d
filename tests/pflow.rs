use fastflow::common::odd_neighbors;
use fastflow::pflow::find;
use fastflow::plane::{check_definition, DefinitionError, PPlane};

const XY: u8 = 0;
const YZ: u8 = 1;
const ZX: u8 = 2;
const X: u8 = 3;
const Y: u8 = 4;
const Z: u8 = 5;

type Flow = Vec<Option<Vec<usize>>>;

fn graph(n: usize, edges: &[(usize, usize)]) -> Vec<Vec<usize>> {
    let mut g = vec![Vec::new(); n];
    for &(a, b) in edges {
        g[a].push(b);
        g[b].push(a);
    }
    g
}

fn planes(n: usize, tags: &[(usize, u8)]) -> Vec<Option<u8>> {
    let mut p = vec![None; n];
    for &(u, t) in tags {
        p[u] = Some(t);
    }
    p
}

fn fset(f: &Flow, u: usize) -> Vec<usize> {
    let mut s = f[u].clone().expect("f is defined here");
    s.sort();
    s
}

fn flen(f: &Flow) -> usize {
    f.iter().filter(|x| x.is_some()).count()
}

fn decoded_planes(p: &[Option<u8>]) -> Vec<Option<PPlane>> {
    p.iter().map(|t| t.and_then(PPlane::from_u8)).collect()
}

fn run(
    g: Vec<Vec<usize>>,
    iset: Vec<usize>,
    oset: Vec<usize>,
    p: Vec<Option<u8>>,
) -> Option<(Flow, Vec<usize>)> {
    let g2 = g.clone();
    let decoded = decoded_planes(&p);
    let r = find(g, iset, oset, p);
    if let Some((f, layer)) = &r {
        assert_eq!(check_definition(f, layer, &g2, &decoded), Ok(()));
    }
    r
}

#[test]
fn test_find_case0() {
    let g = graph(2, &[(0, 1)]);
    let (f, layer) = run(g, vec![0, 1], vec![0, 1], planes(2, &[])).unwrap();
    assert_eq!(flen(&f), 0);
    assert_eq!(layer, vec![0, 0]);
}

#[test]
fn test_find_case1() {
    let g = graph(5, &[(0, 1), (1, 2), (2, 3), (3, 4)]);
    let p = planes(5, &[(0, XY), (1, XY), (2, XY), (3, XY)]);
    let (f, layer) = run(g, vec![0], vec![4], p).unwrap();
    assert_eq!(flen(&f), 4);
    assert_eq!(fset(&f, 0), vec![1]);
    assert_eq!(fset(&f, 1), vec![2]);
    assert_eq!(fset(&f, 2), vec![3]);
    assert_eq!(fset(&f, 3), vec![4]);
    assert_eq!(layer, vec![4, 3, 2, 1, 0]);
}

#[test]
fn test_find_case2() {
    let g = graph(6, &[(0, 2), (1, 3), (2, 4), (3, 5)]);
    let p = planes(6, &[(0, XY), (1, XY), (2, XY), (3, XY)]);
    let (f, layer) = run(g, vec![0, 1], vec![4, 5], p).unwrap();
    assert_eq!(flen(&f), 4);
    assert_eq!(fset(&f, 0), vec![2]);
    assert_eq!(fset(&f, 1), vec![3]);
    assert_eq!(fset(&f, 2), vec![4]);
    assert_eq!(fset(&f, 3), vec![5]);
    assert_eq!(layer, vec![2, 2, 1, 1, 0, 0]);
}

#[test]
fn test_find_case3() {
    let g = graph(6, &[(0, 3), (0, 5), (1, 3), (1, 4), (1, 5), (2, 4), (2, 5)]);
    let p = planes(6, &[(0, XY), (1, XY), (2, XY)]);
    let (f, layer) = run(g, vec![0, 1, 2], vec![3, 4, 5], p).unwrap();
    assert_eq!(flen(&f), 3);
    assert_eq!(fset(&f, 0), vec![4, 5]);
    assert_eq!(fset(&f, 1), vec![3, 4, 5]);
    assert_eq!(fset(&f, 2), vec![3, 5]);
    assert_eq!(layer, vec![1, 1, 1, 0, 0, 0]);
}

#[test]
fn test_find_case4() {
    let g = graph(6, &[(0, 2), (0, 4), (1, 5), (2, 4), (2, 5), (3, 5)]);
    let p = planes(6, &[(0, XY), (1, XY), (2, ZX), (3, YZ)]);
    let (f, layer) = run(g, vec![0, 1], vec![4, 5], p).unwrap();
    assert_eq!(flen(&f), 4);
    assert_eq!(fset(&f, 0), vec![2]);
    assert_eq!(fset(&f, 1), vec![5]);
    assert_eq!(fset(&f, 2), vec![2, 4]);
    assert_eq!(fset(&f, 3), vec![3]);
    assert_eq!(layer, vec![2, 2, 1, 1, 0, 0]);
}

#[test]
fn test_find_case5() {
    let g = graph(4, &[(0, 2), (0, 3), (1, 2), (1, 3)]);
    let p = planes(4, &[(0, XY), (1, XY)]);
    assert!(run(g, vec![0, 1], vec![2, 3], p).is_none());
}

#[test]
fn test_find_case6() {
    let g = graph(5, &[(0, 1), (1, 2), (1, 4), (2, 3)]);
    let p = planes(5, &[(0, XY), (1, X), (2, XY), (3, X)]);
    let (f, layer) = run(g, vec![0], vec![4], p).unwrap();
    assert_eq!(flen(&f), 4);
    assert_eq!(fset(&f, 0), vec![1]);
    assert_eq!(fset(&f, 1), vec![4]);
    assert_eq!(fset(&f, 2), vec![3]);
    assert_eq!(fset(&f, 3), vec![2, 4]);
    assert_eq!(layer, vec![1, 1, 0, 1, 0]);
}

#[test]
fn pair_on_a_line() {
    let g = graph(2, &[(0, 1)]);
    let (f, layer) = run(g, vec![0], vec![1], planes(2, &[(0, XY)])).unwrap();
    assert_eq!(fset(&f, 0), vec![1]);
    assert!(f[1].is_none());
    assert_eq!(layer, vec![1, 0]);
}

#[test]
fn pauli_planes_include_the_vertex_itself() {
    let g = graph(5, &[(0, 1), (0, 2), (3, 4)]);
    let p = planes(5, &[(0, Z), (1, Z), (2, Y), (3, Y)]);
    let (f, layer) = run(g, Vec::new(), vec![4], p).unwrap();
    assert_eq!(flen(&f), 4);
    assert_eq!(fset(&f, 0), vec![0, 2]);
    assert_eq!(fset(&f, 1), vec![1]);
    assert_eq!(fset(&f, 2), vec![2]);
    assert_eq!(fset(&f, 3), vec![4]);
    assert_eq!(layer, vec![0, 0, 0, 1, 0]);
}

#[test]
fn empty_graph_has_trivial_flow() {
    let (f, layer) = run(Vec::new(), Vec::new(), Vec::new(), Vec::new()).unwrap();
    assert!(f.is_empty());
    assert!(layer.is_empty());
}

#[test]
fn all_outputs_give_empty_flow() {
    let g = graph(3, &[(0, 1), (1, 2)]);
    let (f, layer) = run(g, vec![0], vec![0, 1, 2], planes(3, &[])).unwrap();
    assert_eq!(flen(&f), 0);
    assert_eq!(layer, vec![0, 0, 0]);
}

#[test]
fn inputs_equal_outputs_equal_vertices() {
    let g = graph(3, &[(0, 1), (1, 2)]);
    let (f, layer) = run(g, vec![0, 1, 2], vec![0, 1, 2], planes(3, &[])).unwrap();
    assert_eq!(flen(&f), 0);
    assert_eq!(layer, vec![0, 0, 0]);
}

#[test]
fn no_inputs_is_allowed() {
    let g = graph(3, &[(0, 1), (1, 2)]);
    let p = planes(3, &[(0, XY), (1, XY)]);
    let (f, layer) = run(g, Vec::new(), vec![2], p).unwrap();
    assert_eq!(fset(&f, 0), vec![1]);
    assert_eq!(fset(&f, 1), vec![2]);
    assert_eq!(layer, vec![2, 1, 0]);
}

#[test]
fn no_flow_stays_no_flow_when_every_vertex_is_an_output() {
    let g = graph(4, &[(0, 2), (0, 3), (1, 2), (1, 3)]);
    let p = planes(4, &[(0, XY), (1, XY)]);
    assert!(run(g.clone(), vec![0, 1], vec![2, 3], p).is_none());
    assert!(run(g, vec![0, 1], vec![0, 1, 2, 3], planes(4, &[])).is_some());
}

#[test]
fn edge_between_outputs_keeps_the_verdict() {
    let p = planes(6, &[(0, XY), (1, XY), (2, XY), (3, XY)]);
    let g = graph(6, &[(0, 2), (1, 3), (2, 4), (3, 5)]);
    let g2 = graph(6, &[(0, 2), (1, 3), (2, 4), (3, 5), (4, 5)]);
    assert!(run(g, vec![0, 1], vec![4, 5], p.clone()).is_some());
    assert!(run(g2, vec![0, 1], vec![4, 5], p).is_some());
    let q = planes(4, &[(0, XY), (1, XY)]);
    let h = graph(4, &[(0, 2), (0, 3), (1, 2), (1, 3)]);
    let h2 = graph(4, &[(0, 2), (0, 3), (1, 2), (1, 3), (2, 3)]);
    assert!(run(h, vec![0, 1], vec![2, 3], q.clone()).is_none());
    assert!(run(h2, vec![0, 1], vec![2, 3], q).is_none());
}

#[test]
fn layers_have_no_gaps() {
    let g = graph(5, &[(0, 1), (1, 2), (2, 3), (3, 4)]);
    let p = planes(5, &[(0, XY), (1, XY), (2, XY), (3, XY)]);
    let (_, layer) = run(g, vec![0], vec![4], p).unwrap();
    let top = *layer.iter().max().unwrap();
    for k in 1..=top {
        assert!((0..4).any(|v| layer[v] == k));
    }
}

#[test]
fn plane_tags_round_trip() {
    for t in 0u8..6 {
        assert_eq!(PPlane::from_u8(t).unwrap().to_u8(), t);
    }
    assert_eq!(PPlane::from_u8(4), Some(PPlane::Y));
    assert_eq!(PPlane::from_u8(6), None);
}

#[test]
fn odd_neighbourhood_of_a_path_end() {
    let g = graph(4, &[(0, 1), (1, 2), (2, 3)]);
    let s = vec![false, true, true, false];
    assert_eq!(odd_neighbors(&g, &s), vec![true, true, true, true]);
    let s = vec![true, false, true, false];
    assert_eq!(odd_neighbors(&g, &s), vec![false, false, false, true]);
}

fn chain_setup() -> (Vec<Vec<usize>>, Vec<Option<PPlane>>) {
    let g = graph(3, &[(0, 1), (1, 2)]);
    let p = vec![Some(PPlane::XY), Some(PPlane::XY), None];
    (g, p)
}

#[test]
fn definition_accepts_a_chain_flow() {
    let (g, p) = chain_setup();
    let f = vec![Some(vec![1]), Some(vec![2]), None];
    assert_eq!(check_definition(&f, &vec![2, 1, 0], &g, &p), Ok(()));
}

#[test]
fn definition_rejects_mismatched_domain() {
    let (g, p) = chain_setup();
    let f = vec![Some(vec![1]), None, None];
    assert_eq!(check_definition(&f, &vec![2, 1, 0], &g, &p), Err(DefinitionError::Codomain(1)));
}

#[test]
fn definition_rejects_a_late_correction() {
    let (g, p) = chain_setup();
    let f = vec![Some(vec![1]), Some(vec![2]), None];
    assert_eq!(check_definition(&f, &vec![1, 1, 0], &g, &p), Err(DefinitionError::Layer(0, 1)));
}

#[test]
fn definition_rejects_a_late_odd_neighbour() {
    let g = graph(3, &[(0, 1), (1, 2), (0, 2)]);
    let p = vec![Some(PPlane::XY), Some(PPlane::XY), None];
    let f = vec![Some(vec![2]), Some(vec![2]), None];
    assert_eq!(check_definition(&f, &vec![1, 1, 0], &g, &p), Err(DefinitionError::OddLayer(0, 1)));
}

#[test]
fn definition_rejects_a_y_vertex_in_the_difference() {
    let g = graph(3, &[(0, 1), (1, 2)]);
    let p = vec![Some(PPlane::XY), Some(PPlane::Y), None];
    let f = vec![Some(vec![1]), Some(vec![2]), None];
    assert_eq!(
        check_definition(&f, &vec![1, 1, 0], &g, &p),
        Err(DefinitionError::YCorrection(0, 1))
    );
}

#[test]
fn definition_rejects_a_wrong_plane() {
    let (g, _) = chain_setup();
    let p = vec![Some(PPlane::YZ), Some(PPlane::XY), None];
    let f = vec![Some(vec![1]), Some(vec![2]), None];
    assert_eq!(check_definition(&f, &vec![2, 1, 0], &g, &p), Err(DefinitionError::Plane(0)));
}

#[test]
fn zx_and_z_planes_are_accepted_by_the_definition() {
    let g = graph(2, &[(0, 1)]);
    let f = vec![Some(vec![0, 1]), None];
    let layer = vec![1, 0];
    assert_eq!(check_definition(&f, &layer, &g, &vec![Some(PPlane::ZX), None]), Ok(()));
    assert_eq!(check_definition(&f, &layer, &g, &vec![Some(PPlane::Z), None]), Ok(()));
    assert_eq!(check_definition(&f, &layer, &g, &vec![Some(PPlane::X), None]), Ok(()));
    assert_eq!(
        check_definition(&f, &layer, &g, &vec![Some(PPlane::Y), None]),
        Err(DefinitionError::Plane(0))
    );
}

#[test]
fn yz_plane_vertex_corrects_itself() {
    let g = graph(4, &[(0, 2), (1, 3)]);
    let p = planes(4, &[(0, XY), (1, YZ)]);
    let (f, layer) = run(g, vec![0], vec![2, 3], p).unwrap();
    assert_eq!(fset(&f, 0), vec![2]);
    assert_eq!(fset(&f, 1), vec![1]);
    assert_eq!(layer, vec![1, 1, 0, 0]);
}

#[test]
fn x_and_zx_planes() {
    let g = graph(3, &[(0, 1), (0, 2)]);
    let p = planes(3, &[(0, X), (1, ZX)]);
    let (f, layer) = run(g, Vec::new(), vec![2], p).unwrap();
    assert_eq!(fset(&f, 0), vec![2]);
    assert_eq!(fset(&f, 1), vec![0, 1, 2]);
    assert_eq!(layer, vec![1, 1, 0]);
}

#[test]
fn dropping_the_inputs_keeps_a_flow() {
    let cases: Vec<(Vec<Vec<usize>>, Vec<usize>, Vec<usize>, Vec<Option<u8>>)> = vec![
        (graph(5, &[(0, 1), (1, 2), (2, 3), (3, 4)]), vec![0], vec![4], planes(5, &[(0, XY), (1, XY), (2, XY), (3, XY)])),
        (graph(6, &[(0, 2), (0, 4), (1, 5), (2, 4), (2, 5), (3, 5)]), vec![0, 1], vec![4, 5], planes(6, &[(0, XY), (1, XY), (2, ZX), (3, YZ)])),
        (graph(5, &[(0, 1), (1, 2), (1, 4), (2, 3)]), vec![0], vec![4], planes(5, &[(0, XY), (1, X), (2, XY), (3, X)])),
    ];
    for (g, iset, oset, p) in cases {
        assert!(run(g.clone(), iset, oset.clone(), p.clone()).is_some());
        assert!(run(g, Vec::new(), oset, p).is_some());
    }
}
