# optopus (verified core)

Combinatorial optimization problems for metaheuristic search — QUBO, MaxSAT,
vertex cover, graph coloring, job-shop scheduling — with their solutions,
incremental move evaluation, crossovers, sub-problem extraction and
instance-file parsers, verified with Verus.

- `src/` is the library. Every function there carries a `requires`/`ensures`
  contract over mathematical models (`Seq`, `Set`, `int`) and is proved by
  Verus. The only trusted items are the calls into `rand`: the generator
  type `SmallRng` and the wrappers `coin`, `half_chance`, `below`,
  `between`, `between_u64` and `shuffle` in `src/rng.rs`, and
  `thread_below` in `src/tsp_ox.rs`. Each states at most what holds of every
  draw (a range, a rearrangement).
- `app/` reads instance files from disk and hands their bytes to the
  library's parsers.
- `tests/` exercises the library with concrete values.

Main modules: `qubo*` (matrix, energy and flip/swap gains, solutions, moves,
sub-problems and their energy law, crossover, text format), `sat*` (clauses, satisfied-clause
counts and gains, moves, crossover and its counting law, DIMACS), `graph*`, `vertex_cover*`,
`graph_coloring`, `job_shop*` (decoding, PPX crossover, swap/relocate moves,
text format), `int_vars`, `interaction`, `tsp_ox`, and `text` (tokens and
decimal numbers).
