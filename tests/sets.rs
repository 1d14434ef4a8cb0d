use fastflow::common::{check_domain, check_initial, ordered, to_mask};
use fastflow::pflow::{ScopedExclude, ScopedInclude};

#[test]
fn scoped_include_restores_an_absent_vertex() {
    let mut t = vec![false, true, false];
    let guard = ScopedInclude::new(&mut t, 0);
    assert_eq!(t, vec![true, true, false]);
    guard.restore(&mut t);
    assert_eq!(t, vec![false, true, false]);
}

#[test]
fn scoped_include_keeps_a_present_vertex() {
    let mut t = vec![false, true, false];
    let guard = ScopedInclude::new(&mut t, 1);
    assert_eq!(t, vec![false, true, false]);
    guard.restore(&mut t);
    assert_eq!(t, vec![false, true, false]);
}

#[test]
fn scoped_exclude_restores_a_present_vertex() {
    let mut t = vec![false, true, true];
    let guard = ScopedExclude::new(&mut t, 2);
    assert_eq!(t, vec![false, true, false]);
    guard.restore(&mut t);
    assert_eq!(t, vec![false, true, true]);
    let guard = ScopedExclude::new(&mut t, 0);
    assert_eq!(t, vec![false, true, true]);
    guard.restore(&mut t);
    assert_eq!(t, vec![false, true, true]);
}

#[test]
fn masks_lists_and_positions() {
    let m = to_mask(&vec![3, 0, 3], 5);
    assert_eq!(m, vec![true, false, false, true, false]);
    let l = ordered(&m);
    assert_eq!(l, vec![0, 3]);
}

#[test]
fn domain_check_accepts_and_rejects() {
    let iset = vec![true, false, false];
    let oset = vec![false, false, true];
    let good = vec![Some(vec![1]), Some(vec![2]), None];
    assert!(check_domain(&good, &iset, &oset));
    let input_in_image = vec![Some(vec![0]), Some(vec![2]), None];
    assert!(!check_domain(&input_in_image, &iset, &oset));
    let output_defined = vec![Some(vec![1]), Some(vec![2]), Some(vec![1])];
    assert!(!check_domain(&output_defined, &iset, &oset));
    let out_of_range = vec![Some(vec![7]), Some(vec![2]), None];
    assert!(!check_domain(&out_of_range, &iset, &oset));
    let too_short = vec![Some(vec![1])];
    assert!(!check_domain(&too_short, &iset, &oset));
}

#[test]
fn initial_check_wants_outputs_at_zero() {
    let oset = vec![false, true];
    assert!(check_initial(&vec![1, 0], &oset));
    assert!(!check_initial(&vec![1, 1], &oset));
    assert!(!check_initial(&vec![1], &oset));
}
