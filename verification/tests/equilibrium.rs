use boltzmann_agent::equilibrium::is_square;

#[test]
fn square_matrices() {
    assert!(is_square(&vec![vec![0.5, 0.5], vec![0.25, 0.75]]));
    assert!(is_square::<f64>(&vec![]));
    assert!(is_square(&vec![vec![1.0]]));
}

#[test]
fn ragged_or_rectangular_matrices() {
    assert!(!is_square(&vec![vec![0.5, 0.5], vec![1.0]]));
    assert!(!is_square(&vec![vec![0.5, 0.5, 0.0], vec![1.0, 0.0, 0.0]]));
    assert!(!is_square::<f64>(&vec![vec![]]));
}
