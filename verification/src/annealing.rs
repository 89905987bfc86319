//! The stopping and logging rule of simulated annealing.
//!
//! An annealing run counts the iterations since the best energy last
//! improved by at least the tolerance; it declares convergence and stops
//! once that count reaches the patience, and it records the best energy on
//! every iteration whose number is a multiple of the log interval.

use vstd::prelude::*;

verus! {

/// What an annealing run does after one iteration.
#[derive(Debug, Clone, Copy, PartialEq, Eq)]
pub struct IterationOutcome {
    /// Record the best energy in the history.
    pub log: bool,
    /// Convergence is reached: stop the run.
    pub converged: bool,
}

/// The patience counter of an annealing run.
#[derive(Debug, Clone, Copy, PartialEq, Eq)]
pub struct ConvergenceTracker {
    /// Iterations without significant improvement that end the run.
    pub patience: usize,
    /// The best energy is logged on iterations that are multiples of this.
    pub log_interval: usize,
    /// Iterations since the last significant improvement.
    pub stalled_steps: usize,
}

impl ConvergenceTracker {
    /// A tracker at the start of a run.
    pub fn new(patience: usize, log_interval: usize) -> (r: Self)
        ensures
            r.patience == patience,
            r.log_interval == log_interval,
            r.stalled_steps == 0,
    {
        ConvergenceTracker { patience, log_interval, stalled_steps: 0 }
    }

    /// Record iteration `iteration` (counted from 0, below the run's iteration
    /// limit). An iteration improves significantly when it accepts a state
    /// whose energy beats the best by at least the tolerance; any other
    /// iteration counts as stalled. The log interval must be positive: the
    /// logging rule divides by it.
    pub fn record_iteration(&mut self, iteration: usize, improved: bool) -> (r: IterationOutcome)
        requires
            old(self).log_interval > 0,
            old(self).stalled_steps <= iteration,
            iteration < usize::MAX,
        ensures
            final(self).patience == old(self).patience,
            final(self).log_interval == old(self).log_interval,
            final(self).stalled_steps == (if improved {
                0
            } else {
                old(self).stalled_steps + 1
            }),
            final(self).stalled_steps <= iteration + 1,
            r.log == (iteration % old(self).log_interval == 0),
            r.converged == (final(self).stalled_steps >= old(self).patience),
    {
        if improved {
            self.stalled_steps = 0;
        } else {
            self.stalled_steps = self.stalled_steps + 1;
        }
        IterationOutcome {
            log: iteration % self.log_interval == 0,
            converged: self.stalled_steps >= self.patience,
        }
    }
}

} // verus!
