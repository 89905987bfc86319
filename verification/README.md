# boltzmann_agent

Boltzmann-distribution tooling for agent action selection, simulated
annealing, detailed balance, multi-agent ensembles and free energy.

- `src/` is the verified library: the xorshift64 generator, an exact integer
  model of how a 53-bit random numerator becomes an index below `n` through
  `f64` arithmetic, the agent roster of an ensemble (agents by id, in join
  order), the stopping and logging rule of simulated annealing, and the shape
  rule of transition matrices.
- `app/` holds the `f64` side built on it: distributions, schedules,
  selectors, the annealer, equilibrium and free-energy computations, and the
  ensemble types, with their `serde` derives.
- `tests/` exercises the library.
