use fastflow::gf2_linalg::GF2Solver;
use fixedbitset::FixedBitSet;

fn row(bits: &[u8]) -> FixedBitSet {
    let mut r = FixedBitSet::with_capacity(bits.len());
    for (i, &b) in bits.iter().enumerate() {
        if b == 1 {
            r.insert(i);
        }
    }
    r
}

fn solve(rows: &[&[u8]], ncols: usize) -> Option<Vec<bool>> {
    let work: Vec<FixedBitSet> = rows.iter().map(|r| row(r)).collect();
    let mut solver = GF2Solver::attach(work, ncols);
    let mut x = FixedBitSet::with_capacity(ncols);
    let ok = solver.solve_in_place(&mut x);
    let back = solver.detach();
    assert_eq!(back.len(), rows.len());
    if ok {
        Some((0..ncols).map(|i| x.contains(i)).collect())
    } else {
        None
    }
}

#[test]
fn solves_an_invertible_system() {
    // x0 + x1 = 1, x1 = 1
    let x = solve(&[&[1, 1, 1], &[0, 1, 1]], 2).unwrap();
    assert_eq!(x, vec![false, true]);
}

#[test]
fn free_unknowns_are_zero() {
    // x0 + x1 = 1
    let x = solve(&[&[1, 1, 1]], 2).unwrap();
    assert_eq!(x, vec![true, false]);
}

#[test]
fn detects_an_inconsistent_system() {
    // x0 = 1, x0 = 0
    assert!(solve(&[&[1, 1], &[1, 0]], 1).is_none());
    // 0 = 1
    assert!(solve(&[&[0, 0, 1]], 2).is_none());
}

#[test]
fn no_rows_is_solvable() {
    assert_eq!(solve(&[], 3).unwrap(), vec![false, false, false]);
}

#[test]
fn redundant_rows_are_accepted() {
    let x = solve(&[&[1, 0, 1, 1], &[0, 1, 1, 0], &[1, 1, 0, 1]], 3).unwrap();
    assert_eq!(x, vec![true, false, false]);
}

#[test]
fn pivot_below_the_top_row_is_swapped_up() {
    // x1 = 1, x0 = 0
    let x = solve(&[&[0, 1, 1], &[1, 0, 0]], 2).unwrap();
    assert_eq!(x, vec![false, true]);
}

#[test]
fn stale_witness_bits_are_cleared() {
    let work = vec![row(&[1, 0, 0, 1])];
    let mut solver = GF2Solver::attach(work, 3);
    let mut x = FixedBitSet::with_capacity(3);
    x.insert(1);
    x.insert(2);
    assert!(solver.solve_in_place(&mut x));
    assert_eq!((0..3).map(|i| x.contains(i)).collect::<Vec<_>>(), vec![true, false, false]);
}
