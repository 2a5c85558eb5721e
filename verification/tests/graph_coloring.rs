use optopus::graph::Graph;
use optopus::graph_coloring::{GraphColoring, GraphColoringRecolorNeighbor, GraphColoringSwapNeighbor, GraphColoringUniformCrossover};
use rand::rngs::SmallRng;
use rand::{Rng, SeedableRng};

fn triangle() -> Graph {
    let mut g = Graph::new();
    g.add_edge(0, 1);
    g.add_edge(0, 2);
    g.add_edge(1, 2);
    g
}

#[test]
fn coloring_counters_and_objective() {
    let gc = GraphColoring::new(triangle());
    assert_eq!(gc.k, 3);
    assert_eq!(gc.penalty_weight, 4);
    let sol = gc.solution_from_colors(vec![0, 0, 1]);
    assert_eq!(sol.colors_used, 2);
    assert_eq!(sol.conflicts, 1);
    assert_eq!(sol.objective, 2 + 4);
    assert_eq!(sol.class_size, vec![2, 1, 0]);
    // gamma[i * k + c]: neighbours of i colored c
    assert_eq!(sol.gamma[0 * 3 + 0], 1);
    assert_eq!(sol.gamma[0 * 3 + 1], 1);
    assert_eq!(sol.gamma[2 * 3 + 0], 2);
}

#[test]
fn recolor_and_swap_gains_match_the_objective() {
    let gc = GraphColoring::new(triangle());
    let sol = gc.solution_from_colors(vec![0, 0, 1]);
    assert_eq!(gc.recolor_gain(&sol, 1, 2), -3);
    assert_eq!(gc.swap_gain(&sol, 1, 2), 0);
    for m in GraphColoringRecolorNeighbor::iter(&gc, &sol) {
        let mut s = sol.clone();
        let before = s.objective;
        m.apply_to_solution(&gc, &mut s);
        assert_eq!(s.objective, before + m.gain);
        let fresh = gc.solution_from_colors(s.colors.clone());
        assert_eq!(s.gamma, fresh.gamma);
        assert_eq!(s.class_size, fresh.class_size);
        assert_eq!(s.colors_used, fresh.colors_used);
        assert_eq!(s.conflicts, fresh.conflicts);
        assert_eq!(s.objective, fresh.objective);
    }
    let mut s = sol.clone();
    let swap = GraphColoringSwapNeighbor { i: 1, j: 2, gain: gc.swap_gain(&sol, 1, 2) };
    swap.apply_to_solution(&gc, &mut s);
    assert_eq!(s.colors, vec![0, 1, 0]);
    assert_eq!(s.objective, sol.objective + swap.gain);
}

#[test]
fn recolor_to_the_same_color_changes_nothing() {
    let gc = GraphColoring::with_palette(triangle(), 2);
    let mut sol = gc.solution_from_colors(vec![0, 1, 1]);
    let before = sol.clone();
    gc.recolor(&mut sol, 2, 1);
    assert_eq!(sol.colors, before.colors);
    assert_eq!(sol.objective, before.objective);
    assert_eq!(gc.recolor_gain(&sol, 2, 1), 0);
}

#[test]
fn random_colorings_and_children_are_consistent() {
    let gc = GraphColoring::new(triangle());
    let mut rng = SmallRng::seed_from_u64(11);
    let a = gc.new_solution(&mut rng);
    let b = gc.new_solution(&mut rng);
    assert!(a.colors.iter().all(|&c| c < gc.k));
    let child = GraphColoringUniformCrossover.crossover(&gc, &a, &b, &mut rng);
    for v in 0..3 {
        assert!(child.colors[v] == a.colors[v] || child.colors[v] == b.colors[v]);
    }
    let fresh = gc.solution_from_colors(child.colors.clone());
    assert_eq!(child.objective, fresh.objective);
    let picked = GraphColoringUniformCrossover::crossover_with(&gc, &a, &b, &[true, false, true]);
    assert_eq!(picked.colors, vec![a.colors[0], b.colors[1], a.colors[2]]);
}

#[test]
fn tabu_map_marks_and_frees_vertices() {
    let mut rng = SmallRng::seed_from_u64(1);
    let mut map: Vec<u64> = vec![7];
    let m = GraphColoringRecolorNeighbor { v: 3, new_color: 0, gain: 0 };
    assert!(m.is_move_enabled(&map, 0));
    m.add_to_tabu_map(&mut map, 10, (2, 4), &mut rng);
    assert_eq!(map.len(), 4);
    assert_eq!(map[0], 7);
    assert_eq!(map[1], 0);
    assert!(map[3] >= 12 && map[3] <= 14);
    assert!(!m.is_move_enabled(&map, 11));
    assert!(m.is_move_enabled(&map, 15));

    let s = GraphColoringSwapNeighbor { i: 0, j: 5, gain: 0 };
    s.add_to_tabu_map(&mut map, 20, (1, 1), &mut rng);
    assert_eq!(map.len(), 6);
    assert_eq!(map[0], 21);
    assert_eq!(map[5], 21);
    assert!(!s.is_move_enabled(&map, 21));
    assert!(s.is_move_enabled(&map, 22));
}

#[test]
fn distance_counts_differing_colors() {
    let gc = GraphColoring::new(triangle());
    let a = gc.solution_from_colors(vec![0, 1, 2]);
    let b = gc.solution_from_colors(vec![0, 2, 1]);
    assert_eq!(a.distance(&b), 2);
    assert_eq!(a.distance(&a), 0);
}

/// Triangle + a pendant vertex: forces at least 3 colors on the triangle.
fn sample() -> GraphColoring {
    let mut g = Graph::new();
    g.add_edge(0, 1);
    g.add_edge(1, 2);
    g.add_edge(2, 0);
    g.add_edge(2, 3);
    GraphColoring::new(g)
}

fn assert_consistent(prob: &GraphColoring, sol: &optopus::graph_coloring::GraphColoringSolution) {
    let fresh = prob.solution_from_colors(sol.colors.clone());
    assert_eq!(sol.gamma, fresh.gamma, "gamma drifted");
    assert_eq!(sol.class_size, fresh.class_size, "class_size drifted");
    assert_eq!(sol.colors_used, fresh.colors_used, "colors_used drifted");
    assert_eq!(sol.conflicts, fresh.conflicts, "conflicts drifted");
    assert_eq!(sol.objective, fresh.objective, "objective drifted");
}

#[test]
fn test_palette_from_max_degree() {
    let prob = sample();
    assert_eq!(prob.k, 4);
    assert_eq!(prob.penalty_weight, prob.graph.len() as i64 + 1);
}

#[test]
fn test_new_solution_valid_and_consistent() {
    let prob = sample();
    let mut rng = SmallRng::seed_from_u64(42);
    let sol = prob.new_solution(&mut rng);
    assert_eq!(sol.colors.len(), prob.graph.len());
    assert!(sol.colors.iter().all(|&c| c < prob.k));
    assert_consistent(&prob, &sol);
}

#[test]
fn test_proper_coloring_zero_conflicts() {
    let prob = sample();
    let sol = prob.solution_from_colors(vec![0, 1, 2, 0]);
    assert_eq!(sol.conflicts, 0);
    assert_eq!(sol.colors_used, 3);
    assert_eq!(sol.objective, 3);
}

#[test]
fn test_recolor_incremental_matches_recompute_and_gain() {
    let prob = sample();
    let mut rng = SmallRng::seed_from_u64(7);
    let mut sol = prob.new_solution(&mut rng);
    for _ in 0..200 {
        let moves: Vec<_> = GraphColoringRecolorNeighbor::iter(&prob, &sol);
        let m = moves[rng.random_range(0..moves.len())];
        let before = sol.objective;
        let gain = m.gain;
        m.apply_to_solution(&prob, &mut sol);
        assert_eq!(before + gain, sol.objective, "recolor gain mismatch");
        assert_consistent(&prob, &sol);
    }
}

#[test]
fn test_swap_incremental_matches_recompute_and_gain() {
    let prob = sample();
    let mut rng = SmallRng::seed_from_u64(9);
    let mut sol = prob.new_solution(&mut rng);
    for _ in 0..200 {
        let moves: Vec<_> = GraphColoringSwapNeighbor::iter(&prob, &sol);
        if moves.is_empty() {
            break;
        }
        let m = moves[rng.random_range(0..moves.len())];
        let before = sol.objective;
        let colors_used_before = sol.colors_used;
        let gain = m.gain;
        m.apply_to_solution(&prob, &mut sol);
        assert_eq!(before + gain, sol.objective, "swap gain mismatch");
        assert_eq!(colors_used_before, sol.colors_used, "swap must not change colors_used");
        assert_consistent(&prob, &sol);
    }
}

#[test]
fn test_crossover_child_valid() {
    let prob = sample();
    let p1 = prob.solution_from_colors(vec![0, 1, 2, 0]);
    let p2 = prob.solution_from_colors(vec![1, 2, 0, 1]);
    let mut rng = SmallRng::seed_from_u64(3);
    let mut xover = GraphColoringUniformCrossover;
    let child = xover.crossover(&prob, &p1, &p2, &mut rng);
    for v in 0..prob.graph.len() {
        assert!(child.colors[v] == p1.colors[v] || child.colors[v] == p2.colors[v]);
    }
    assert_consistent(&prob, &child);
}

#[test]
fn random_neighbors_are_valid_moves() {
    let prob = sample();
    let mut rng = SmallRng::seed_from_u64(21);
    let sol = prob.solution_from_colors(vec![0, 1, 2, 0]);
    for _ in 0..50 {
        let m = GraphColoringRecolorNeighbor::random_neighbor(&prob, &sol, &mut rng).unwrap();
        assert_ne!(m.new_color, sol.colors[m.v]);
        assert!(m.new_color < prob.k);
        assert_eq!(m.gain, prob.recolor_gain(&sol, m.v, m.new_color));
        if let Some(s) = GraphColoringSwapNeighbor::random_neighbor(&prob, &sol, &mut rng) {
            assert!(s.j < s.i);
            assert_ne!(sol.colors[s.i], sol.colors[s.j]);
            assert_eq!(s.gain, prob.swap_gain(&sol, s.i, s.j));
        }
    }
    let lone = GraphColoring::new(Graph::new());
    let empty = lone.solution_from_colors(vec![]);
    assert!(GraphColoringRecolorNeighbor::random_neighbor(&lone, &empty, &mut rng).is_none());
    assert!(GraphColoringSwapNeighbor::random_neighbor(&lone, &empty, &mut rng).is_none());
}

#[test]
fn pick_swap_takes_a_drawn_pair_of_different_colors() {
    let prob = sample();
    let sol = prob.solution_from_colors(vec![0, 1, 2, 0]);
    assert!(GraphColoringSwapNeighbor::pick_swap(&prob, &sol, 2, 2).is_none());
    assert!(GraphColoringSwapNeighbor::pick_swap(&prob, &sol, 0, 3).is_none());
    let m = GraphColoringSwapNeighbor::pick_swap(&prob, &sol, 1, 3).unwrap();
    assert_eq!((m.i, m.j), (3, 1));
    assert_eq!(m.gain, prob.swap_gain(&sol, 3, 1));
}
