//! Boltzmann-distribution tooling for agent action selection and multi-agent
//! systems: the integer core that can be stated and proved exactly.
//!
//! - [`rng`]: the xorshift64 generator used by every sampler of the crate.
//! - [`rounding`]: an exact integer model of the `f64` arithmetic that maps a
//!   random numerator to an index below `n`.
//! - [`multi_agent`]: the roster of an ensemble, agents by id in join order.
//! - [`annealing`]: the stopping and logging rule of simulated annealing.
//! - [`equilibrium`]: the shape rule of transition matrices.

pub mod annealing;
pub mod equilibrium;
pub mod multi_agent;
pub mod rng;
pub mod rounding;

pub use rng::Xorshift64;
