use boltzmann_agent::annealing::{ConvergenceTracker, IterationOutcome};

#[test]
fn converges_after_patience_stalled_iterations() {
    let mut t = ConvergenceTracker::new(3, 100);
    assert_eq!(t.record_iteration(0, false), IterationOutcome { log: true, converged: false });
    assert_eq!(t.record_iteration(1, false), IterationOutcome { log: false, converged: false });
    assert_eq!(t.record_iteration(2, false), IterationOutcome { log: false, converged: true });
    assert_eq!(t.stalled_steps, 3);
}

#[test]
fn significant_improvement_resets_the_count() {
    let mut t = ConvergenceTracker::new(2, 1);
    assert!(!t.record_iteration(0, false).converged);
    assert!(!t.record_iteration(1, true).converged);
    assert_eq!(t.stalled_steps, 0);
    assert!(!t.record_iteration(2, false).converged);
    assert!(t.record_iteration(3, false).converged);
}

#[test]
fn logs_every_multiple_of_the_interval() {
    let mut t = ConvergenceTracker::new(1000, 5);
    let logged: Vec<usize> = (0..16).filter(|&i| t.record_iteration(i, true).log).collect();
    assert_eq!(logged, vec![0, 5, 10, 15]);
}

#[test]
fn zero_patience_converges_at_once() {
    let mut t = ConvergenceTracker::new(0, 10);
    assert!(t.record_iteration(0, true).converged);
}
