use fastflow::flow;
use fastflow::gflow;

fn graph(n: usize, edges: &[(usize, usize)]) -> Vec<Vec<usize>> {
    let mut g = vec![Vec::new(); n];
    for &(a, b) in edges {
        g[a].push(b);
        g[b].push(a);
    }
    g
}

fn check_causal(g: &[Vec<usize>], f: &[Option<usize>], layer: &[usize], iset: &[usize]) {
    for (u, fu) in f.iter().enumerate() {
        if let Some(v) = *fu {
            assert!(g[u].contains(&v));
            assert!(!iset.contains(&v));
            assert!(layer[v] < layer[u]);
            for &w in &g[v] {
                if w != u {
                    assert!(layer[w] < layer[u]);
                }
            }
        }
    }
}

#[test]
fn causal_pair_on_a_line() {
    let g = graph(2, &[(0, 1)]);
    let (f, layer) = flow::find(g.clone(), vec![0], vec![1]).unwrap();
    assert_eq!(f, vec![Some(1), None]);
    assert_eq!(layer, vec![1, 0]);
    check_causal(&g, &f, &layer, &[0]);
}

#[test]
fn causal_chain() {
    let g = graph(5, &[(0, 1), (1, 2), (2, 3), (3, 4)]);
    let (f, layer) = flow::find(g.clone(), vec![0], vec![4]).unwrap();
    assert_eq!(f, vec![Some(1), Some(2), Some(3), Some(4), None]);
    assert_eq!(layer, vec![4, 3, 2, 1, 0]);
    check_causal(&g, &f, &layer, &[0]);
}

#[test]
fn causal_two_chains() {
    let g = graph(6, &[(0, 2), (1, 3), (2, 4), (3, 5)]);
    let (f, layer) = flow::find(g.clone(), vec![0, 1], vec![4, 5]).unwrap();
    assert_eq!(f, vec![Some(2), Some(3), Some(4), Some(5), None, None]);
    assert_eq!(layer, vec![2, 2, 1, 1, 0, 0]);
    check_causal(&g, &f, &layer, &[0, 1]);
}

#[test]
fn causal_flow_absent_on_a_square() {
    let g = graph(4, &[(0, 2), (0, 3), (1, 2), (1, 3)]);
    assert!(flow::find(g, vec![0, 1], vec![2, 3]).is_none());
}

#[test]
fn causal_all_outputs() {
    let g = graph(3, &[(0, 1), (1, 2)]);
    let (f, layer) = flow::find(g, vec![], vec![0, 1, 2]).unwrap();
    assert_eq!(f, vec![None, None, None]);
    assert_eq!(layer, vec![0, 0, 0]);
}

#[test]
fn causal_flow_missing_where_gflow_exists() {
    let g = graph(6, &[(0, 3), (0, 5), (1, 3), (1, 4), (1, 5), (2, 4), (2, 5)]);
    assert!(flow::find(g.clone(), vec![0, 1, 2], vec![3, 4, 5]).is_none());
    assert!(gflow::find(g, vec![0, 1, 2], vec![3, 4, 5]).is_some());
}

#[test]
fn lone_neighbour_is_found() {
    let g = graph(3, &[(0, 1), (1, 2)]);
    assert_eq!(flow::lone_uncorrected(&g, &vec![false, true, true], 1), Some(0));
    assert_eq!(flow::lone_uncorrected(&g, &vec![false, true, false], 1), None);
    assert_eq!(flow::lone_uncorrected(&g, &vec![true, true, true], 1), None);
}

#[test]
fn generalized_chain() {
    let g = graph(5, &[(0, 1), (1, 2), (2, 3), (3, 4)]);
    let (f, layer) = gflow::find(g, vec![0], vec![4]).unwrap();
    assert_eq!(f, vec![Some(vec![1]), Some(vec![2]), Some(vec![3]), Some(vec![4]), None]);
    assert_eq!(layer, vec![4, 3, 2, 1, 0]);
}

#[test]
fn generalized_three_by_three() {
    let g = graph(6, &[(0, 3), (0, 5), (1, 3), (1, 4), (1, 5), (2, 4), (2, 5)]);
    let (f, layer) = gflow::find(g, vec![0, 1, 2], vec![3, 4, 5]).unwrap();
    let mut sets: Vec<Vec<usize>> = f.iter().take(3).map(|x| x.clone().unwrap()).collect();
    for s in sets.iter_mut() {
        s.sort();
    }
    assert_eq!(sets, vec![vec![4, 5], vec![3, 4, 5], vec![3, 5]]);
    assert_eq!(layer, vec![1, 1, 1, 0, 0, 0]);
}

#[test]
fn generalized_flow_absent_on_a_square() {
    let g = graph(4, &[(0, 2), (0, 3), (1, 2), (1, 3)]);
    assert!(gflow::find(g, vec![0, 1], vec![2, 3]).is_none());
}
