//! Combinatorial optimization problems (QUBO, MaxSAT, vertex cover, graph
//! coloring, job shop scheduling, bounded integer variables) together with
//! their incremental move evaluation, verified with Verus.

pub mod rng;
pub mod sums;
pub mod sorted;
pub mod sparse_row;
pub mod gain_index;
pub mod qubo;
pub mod qubo_energy;
pub mod qubo_solution;
pub mod qubo_moves;
pub mod qubo_sub;
pub mod qubo_sub_law;
pub mod qubo_crossover;
pub mod sat;
pub mod sat_moves;
pub mod sat_crossover;
pub mod sat_sub_law;
pub mod graph;
pub mod vertex_cover;
pub mod vertex_cover_moves;
pub mod job_shop;
pub mod graph_coloring;
pub mod int_vars;
pub mod formula;
pub mod interaction;
pub mod tsp_ox;
pub mod text;
pub mod qubo_text;
pub mod job_shop_text;
pub mod job_shop_moves;
pub mod sat_text;
pub mod graph_text;
